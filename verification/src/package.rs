//! One resolved package of the lockfile.

use crate::classifier::DependencyKind;
use crate::classifier::PackageSource;
use crate::description::Description;
use crate::description::DescriptionView;
use crate::entries::keys_distinct;
use crate::entries::lemma_lookup_distinct;
use crate::entries::lemma_lookup_insert_other;
use crate::entries::lookup;
use crate::error::viewed;
use crate::error::DecodeError;
use crate::error::DecodeErrorView;
use crate::node::entries_view;
use crate::node::lemma_record_view;
use crate::node::Node;
use crate::node::NodeView;
use crate::record::fault_of;
use crate::record::first_fault;
use crate::record::lemma_first_fault_insert;
use crate::record::lemma_first_fault_next;
use crate::record::lemma_first_fault_none;
use crate::record::lemma_lookup_next;
use crate::record::text;
use crate::record::text_spec;
use crate::text::same_text;
use vstd::prelude::*;

verus! {

/// A package as the lockfile records it.
#[derive(Debug, PartialEq, Eq)]
pub struct Package {
    /// Why the package is part of the graph.
    pub dependency: DependencyKind,
    /// Where the package comes from.
    pub source: PackageSource,
    /// The exact version that was resolved, taken as written.
    pub version: String,
    /// What the package is; it need not agree with `source`.
    pub description: Description,
}

/// The mathematical value of a [`Package`].
pub struct PackageView {
    pub dependency: DependencyKind,
    pub source: PackageSource,
    pub version: Seq<char>,
    pub description: DescriptionView,
}

impl View for Package {
    type V = PackageView;

    open spec fn view(&self) -> PackageView {
        PackageView {
            dependency: self.dependency,
            source: self.source,
            version: self.version@,
            description: self.description@,
        }
    }
}

/// What is wrong with the entry `key: node` of a package record: the node
/// under each of the four fields must decode as that field, any other entry
/// is ignored.
pub open spec fn package_entry_fault(key: Seq<char>, node: NodeView) -> Option<DecodeErrorView> {
    if key == "dependency"@ {
        fault_of(DependencyKind::decode_spec(node))
    } else if key == "source"@ {
        fault_of(PackageSource::decode_spec(node))
    } else if key == "version"@ {
        fault_of(text_spec(node, "version"@))
    } else if key == "description"@ {
        fault_of(DescriptionView::decode(node))
    } else {
        None
    }
}

/// [`package_entry_fault`] as a rule for entries.
pub open spec fn package_rule() -> spec_fn(Seq<char>, NodeView) -> Option<DecodeErrorView> {
    |key: Seq<char>, node: NodeView| package_entry_fault(key, node)
}

impl PackageView {
    /// The package that the four nodes decode to; the first of them, in the
    /// order of the fields, that does not decode fails the package.
    pub open spec fn assemble(
        dependency: NodeView,
        source: NodeView,
        version: NodeView,
        description: NodeView,
    ) -> Result<PackageView, DecodeErrorView> {
        match DependencyKind::decode_spec(dependency) {
            Err(error) => Err(error),
            Ok(dependency) => match PackageSource::decode_spec(source) {
                Err(error) => Err(error),
                Ok(source) => match text_spec(version, "version"@) {
                    Err(error) => Err(error),
                    Ok(version) => match DescriptionView::decode(description) {
                        Err(error) => Err(error),
                        Ok(description) => Ok(
                            PackageView { dependency, source, version, description },
                        ),
                    },
                },
            },
        }
    }

    /// What decoding `node` yields.
    ///
    /// The node must be a record. It is read entry by entry: the first entry
    /// under one of the four fields whose node does not decode fails the
    /// record with that node's own error. After that each field must be
    /// bound, in the order `dependency`, `source`, `version`, `description`,
    /// and the last binding of each counts. Other keys are ignored.
    pub open spec fn decode(node: NodeView) -> Result<PackageView, DecodeErrorView> {
        match node {
            NodeView::Record(entries) => match first_fault(entries, package_rule()) {
                Some(error) => Err(error),
                None => match lookup(entries, "dependency"@) {
                    None => Err(DecodeErrorView::MissingField("dependency"@)),
                    Some(dependency) => match lookup(entries, "source"@) {
                        None => Err(DecodeErrorView::MissingField("source"@)),
                        Some(source) => match lookup(entries, "version"@) {
                            None => Err(DecodeErrorView::MissingField("version"@)),
                            Some(version) => match lookup(entries, "description"@) {
                                None => Err(DecodeErrorView::MissingField("description"@)),
                                Some(description) => Self::assemble(
                                    dependency,
                                    source,
                                    version,
                                    description,
                                ),
                            },
                        },
                    },
                },
            },
            _ => Err(DecodeErrorView::TypeMismatch { expected: "map"@, field: "package"@ }),
        }
    }

    /// The node that stands for `self`: a record of exactly the four fields,
    /// in the order of the schema.
    pub open spec fn encode(self) -> NodeView {
        NodeView::Record(
            seq![
                ("dependency"@, self.dependency.encode_spec()),
                ("source"@, self.source.encode_spec()),
                ("version"@, NodeView::Str(self.version)),
                ("description"@, self.description.encode()),
            ],
        )
    }
}

/// The four field names differ from one another.
pub proof fn lemma_package_fields_differ()
    ensures
        "dependency"@ != "source"@,
        "dependency"@ != "version"@,
        "dependency"@ != "description"@,
        "source"@ != "version"@,
        "source"@ != "description"@,
        "version"@ != "description"@,
{
    reveal_strlit("dependency");
    reveal_strlit("source");
    reveal_strlit("version");
    reveal_strlit("description");
    assert("dependency"@.len() == 10);
    assert("source"@.len() == 6);
    assert("version"@.len() == 7);
    assert("description"@.len() == 11);
}

impl PackageView {
    /// Decoding what `encode` wrote gives the package back.
    pub proof fn lemma_round_trip(self)
        ensures
            PackageView::decode(self.encode()) == Ok::<PackageView, DecodeErrorView>(self),
    {
        let e0 = ("dependency"@, self.dependency.encode_spec());
        let e1 = ("source"@, self.source.encode_spec());
        let e2 = ("version"@, NodeView::Str(self.version));
        let e3 = ("description"@, self.description.encode());
        let written = self.encode()->Record_0;
        assert(written[0] == e0 && written[1] == e1 && written[2] == e2 && written[3] == e3);
        lemma_package_fields_differ();
        self.dependency.lemma_round_trip();
        self.source.lemma_round_trip();
        self.description.lemma_round_trip();
        lemma_first_fault_none(written, package_rule());
        assert(keys_distinct(written));
        lemma_lookup_distinct(written, 0);
        lemma_lookup_distinct(written, 1);
        lemma_lookup_distinct(written, 2);
        lemma_lookup_distinct(written, 3);
    }

    /// An entry under a key that is none of the four fields, put in
    /// anywhere, does not change what a record decodes to.
    pub proof fn lemma_ignores_other_keys(
        entries: Seq<(Seq<char>, NodeView)>,
        at: int,
        entry: (Seq<char>, NodeView),
    )
        requires
            0 <= at <= entries.len(),
            entry.0 != "dependency"@,
            entry.0 != "source"@,
            entry.0 != "version"@,
            entry.0 != "description"@,
        ensures
            PackageView::decode(NodeView::Record(entries.insert(at, entry))) == PackageView::decode(
                NodeView::Record(entries),
            ),
    {
        lemma_first_fault_insert(entries, package_rule(), at, entry);
        lemma_lookup_insert_other(entries, at, entry, "dependency"@);
        lemma_lookup_insert_other(entries, at, entry, "source"@);
        lemma_lookup_insert_other(entries, at, entry, "version"@);
        lemma_lookup_insert_other(entries, at, entry, "description"@);
    }

    /// A record that holds no fault and binds the fields before `version`
    /// but not `version` itself fails for want of `version`, and of nothing
    /// else.
    pub proof fn lemma_missing_version(entries: Seq<(Seq<char>, NodeView)>)
        requires
            first_fault(entries, package_rule()) is None,
            lookup(entries, "dependency"@) is Some,
            lookup(entries, "source"@) is Some,
            lookup(entries, "version"@) is None,
        ensures
            PackageView::decode(NodeView::Record(entries)) == Err::<PackageView, DecodeErrorView>(
                DecodeErrorView::MissingField("version"@),
            ),
    {
    }
}

impl Package {
    /// Decodes a package from a record node.
    pub fn decode(node: &Node) -> (r: Result<Package, DecodeError>)
        ensures
            viewed(r) == PackageView::decode(node@),
    {
        match node {
            Node::Record(entries) => {
                let ghost all = entries_view(entries@);
                proof {
                    lemma_record_view(*entries);
                }
                let mut dependency: Option<DependencyKind> = None;
                let mut source: Option<PackageSource> = None;
                let mut version: Option<String> = None;
                let mut description: Option<Description> = None;
                let mut i: usize = 0;
                while i < entries.len()
                    invariant
                        0 <= i <= entries.len(),
                        all == entries_view(entries@),
                        node@ == NodeView::Record(all),
                        first_fault(all.take(i as int), package_rule()) is None,
                        match lookup(all.take(i as int), "dependency"@) {
                            Some(node) => dependency is Some && DependencyKind::decode_spec(node)
                                == Ok::<DependencyKind, DecodeErrorView>(dependency->0),
                            None => dependency is None,
                        },
                        match lookup(all.take(i as int), "source"@) {
                            Some(node) => source is Some && PackageSource::decode_spec(node)
                                == Ok::<PackageSource, DecodeErrorView>(source->0),
                            None => source is None,
                        },
                        match lookup(all.take(i as int), "version"@) {
                            Some(node) => version is Some && text_spec(node, "version"@) == Ok::<
                                Seq<char>,
                                DecodeErrorView,
                            >(version->0@),
                            None => version is None,
                        },
                        match lookup(all.take(i as int), "description"@) {
                            Some(node) => description is Some && DescriptionView::decode(node)
                                == Ok::<DescriptionView, DecodeErrorView>(description->0@),
                            None => description is None,
                        },
                    decreases entries.len() - i,
                {
                    let entry = &entries[i];
                    proof {
                        lemma_first_fault_next(all, package_rule(), i as int);
                        lemma_lookup_next(all, "dependency"@, i as int);
                        lemma_lookup_next(all, "source"@, i as int);
                        lemma_lookup_next(all, "version"@, i as int);
                        lemma_lookup_next(all, "description"@, i as int);
                        lemma_package_fields_differ();
                    }
                    if same_text(entry.0.as_str(), "dependency") {
                        match DependencyKind::decode(&entry.1) {
                            Ok(kind) => {
                                dependency = Some(kind);
                            },
                            Err(error) => {
                                return Err(error);
                            },
                        }
                    } else if same_text(entry.0.as_str(), "source") {
                        match PackageSource::decode(&entry.1) {
                            Ok(origin) => {
                                source = Some(origin);
                            },
                            Err(error) => {
                                return Err(error);
                            },
                        }
                    } else if same_text(entry.0.as_str(), "version") {
                        match text(&entry.1, "version") {
                            Ok(s) => {
                                version = Some(s);
                            },
                            Err(error) => {
                                return Err(error);
                            },
                        }
                    } else if same_text(entry.0.as_str(), "description") {
                        match Description::decode(&entry.1) {
                            Ok(d) => {
                                description = Some(d);
                            },
                            Err(error) => {
                                return Err(error);
                            },
                        }
                    }
                    i = i + 1;
                }
                proof {
                    assert(all.take(i as int) =~= all);
                }
                let dependency = match dependency {
                    Some(kind) => kind,
                    None => {
                        return Err(DecodeError::missing("dependency"));
                    },
                };
                let source = match source {
                    Some(origin) => origin,
                    None => {
                        return Err(DecodeError::missing("source"));
                    },
                };
                let version = match version {
                    Some(s) => s,
                    None => {
                        return Err(DecodeError::missing("version"));
                    },
                };
                let description = match description {
                    Some(d) => d,
                    None => {
                        return Err(DecodeError::missing("description"));
                    },
                };
                Ok(Package { dependency, source, version, description })
            },
            _ => Err(DecodeError::mismatch("map", "package")),
        }
    }

    /// Encodes this package as a record of its four fields.
    pub fn encode(&self) -> (node: Node)
        ensures
            node@ == self@.encode(),
    {
        let mut entries: Vec<(String, Node)> = Vec::new();
        entries.push(("dependency".to_owned(), self.dependency.encode()));
        entries.push(("source".to_owned(), self.source.encode()));
        entries.push(("version".to_owned(), Node::Str(self.version.clone())));
        entries.push(("description".to_owned(), self.description.encode()));
        proof {
            lemma_record_view(entries);
            assert(entries_view(entries@) =~= self@.encode()->Record_0);
        }
        Node::Record(entries)
    }
}

} // verus!
