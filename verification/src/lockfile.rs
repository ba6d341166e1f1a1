//! The lockfile document: SDK constraints and resolved packages.

use crate::entries::keys_distinct;
use crate::entries::keys_sorted;
use crate::entries::lemma_lookup_distinct;
use crate::entries::lemma_lookup_insert_other;
use crate::entries::lookup;
use crate::error::viewed;
use crate::error::DecodeError;
use crate::error::DecodeErrorView;
use crate::node::entries_view;
use crate::node::lemma_record_view;
use crate::node::Node;
use crate::node::NodeView;
use crate::package::Package;
use crate::package::PackageView;
use crate::record::decode_bindings;
use crate::record::encode_bindings;
use crate::record::fault_of;
use crate::record::first_fault;
use crate::record::lemma_bindings_round_trip;
use crate::record::lemma_decode_bindings_next;
use crate::record::lemma_decode_bindings_sorted;
use crate::record::lemma_encoded_keys;
use crate::record::lemma_first_fault_insert;
use crate::record::lemma_first_fault_next;
use crate::record::lemma_first_fault_none;
use crate::record::lemma_lookup_next;
use crate::record::text;
use crate::record::text_spec;
use crate::sorted_map::SortedMap;
use crate::text::same_text;
use vstd::prelude::*;

verus! {

/// A lockfile: the version constraint of each SDK and the resolved package
/// under each package name, both in key order.
#[derive(Debug, PartialEq, Eq)]
pub struct LockFile {
    /// SDK name to version constraint.
    pub sdks: SortedMap<String>,
    /// Package name to the package as resolved.
    pub packages: SortedMap<Package>,
}

/// The mathematical value of a [`LockFile`]: its bindings in key order.
pub struct LockFileView {
    pub sdks: Seq<(Seq<char>, Seq<char>)>,
    pub packages: Seq<(Seq<char>, PackageView)>,
}

impl View for LockFile {
    type V = LockFileView;

    open spec fn view(&self) -> LockFileView {
        LockFileView { sdks: self.sdks@, packages: self.packages@ }
    }
}

/// How the value under an SDK name is decoded: it must be a string, and a
/// failure names the SDK.
pub open spec fn sdk_decoder() -> spec_fn(Seq<char>, NodeView) -> Result<
    Seq<char>,
    DecodeErrorView,
> {
    |key: Seq<char>, node: NodeView| text_spec(node, key)
}

/// How the value under a package name is decoded: as a package.
pub open spec fn package_decoder() -> spec_fn(Seq<char>, NodeView) -> Result<
    PackageView,
    DecodeErrorView,
> {
    |key: Seq<char>, node: NodeView| PackageView::decode(node)
}

/// How a version constraint is encoded: as a string.
pub open spec fn sdk_encoder() -> spec_fn(Seq<char>) -> NodeView {
    |constraint: Seq<char>| NodeView::Str(constraint)
}

/// How a package is encoded.
pub open spec fn package_encoder() -> spec_fn(PackageView) -> NodeView {
    |package: PackageView| package.encode()
}

/// What is wrong with the entry `key: node` of the document: the nodes under
/// `sdks` and `packages` must decode as those maps, any other entry is
/// ignored.
pub open spec fn document_entry_fault(key: Seq<char>, node: NodeView) -> Option<DecodeErrorView> {
    if key == "sdks"@ {
        fault_of(LockFileView::decode_sdks(node))
    } else if key == "packages"@ {
        fault_of(LockFileView::decode_packages(node))
    } else {
        None
    }
}

/// [`document_entry_fault`] as a rule for entries.
pub open spec fn document_rule() -> spec_fn(Seq<char>, NodeView) -> Option<DecodeErrorView> {
    |key: Seq<char>, node: NodeView| document_entry_fault(key, node)
}

/// `node` is a record whose keys are strictly increasing.
pub open spec fn is_sorted_record(node: NodeView) -> bool {
    node matches NodeView::Record(entries) && keys_sorted(entries)
}

/// `node` has the form in which a lockfile is written: a record of exactly
/// `sdks` and `packages`, in this order, each a record whose keys are
/// strictly increasing.
pub open spec fn is_canonical(node: NodeView) -> bool {
    &&& node matches NodeView::Record(entries)
    &&& entries.len() == 2
    &&& entries[0].0 == "sdks"@
    &&& is_sorted_record(entries[0].1)
    &&& entries[1].0 == "packages"@
    &&& is_sorted_record(entries[1].1)
}

impl LockFileView {
    /// Both maps stand in strictly increasing key order.
    pub open spec fn wf(self) -> bool {
        keys_sorted(self.sdks) && keys_sorted(self.packages)
    }

    /// What decoding the node under `sdks` yields: it must be a record, and
    /// each of its values a string.
    pub open spec fn decode_sdks(node: NodeView) -> Result<
        Seq<(Seq<char>, Seq<char>)>,
        DecodeErrorView,
    > {
        match node {
            NodeView::Record(entries) => decode_bindings(entries, sdk_decoder()),
            _ => Err(DecodeErrorView::TypeMismatch { expected: "map"@, field: "sdks"@ }),
        }
    }

    /// What decoding the node under `packages` yields: it must be a record,
    /// and each of its values a package.
    pub open spec fn decode_packages(node: NodeView) -> Result<
        Seq<(Seq<char>, PackageView)>,
        DecodeErrorView,
    > {
        match node {
            NodeView::Record(entries) => decode_bindings(entries, package_decoder()),
            _ => Err(DecodeErrorView::TypeMismatch { expected: "map"@, field: "packages"@ }),
        }
    }

    /// The lockfile that the two nodes decode to.
    pub open spec fn assemble(sdks: NodeView, packages: NodeView) -> Result<
        LockFileView,
        DecodeErrorView,
    > {
        match Self::decode_sdks(sdks) {
            Err(error) => Err(error),
            Ok(sdks) => match Self::decode_packages(packages) {
                Err(error) => Err(error),
                Ok(packages) => Ok(LockFileView { sdks, packages }),
            },
        }
    }

    /// What decoding `node` yields.
    ///
    /// The node must be a record. It is read entry by entry: the first entry
    /// under `sdks` or `packages` whose node does not decode fails the
    /// document with that node's own error. After that `sdks` and `packages`
    /// must both be bound, and the last binding of each counts. Other keys
    /// are ignored.
    pub open spec fn decode(node: NodeView) -> Result<LockFileView, DecodeErrorView> {
        match node {
            NodeView::Record(entries) => match first_fault(entries, document_rule()) {
                Some(error) => Err(error),
                None => match lookup(entries, "sdks"@) {
                    None => Err(DecodeErrorView::MissingField("sdks"@)),
                    Some(sdks) => match lookup(entries, "packages"@) {
                        None => Err(DecodeErrorView::MissingField("packages"@)),
                        Some(packages) => Self::assemble(sdks, packages),
                    },
                },
            },
            _ => Err(DecodeErrorView::TypeMismatch { expected: "map"@, field: "document"@ }),
        }
    }

    /// The node that stands for `self`: a record of `sdks` and `packages`,
    /// each a record of its bindings in the order in which `self` holds them.
    pub open spec fn encode(self) -> NodeView {
        NodeView::Record(
            seq![
                ("sdks"@, NodeView::Record(encode_bindings(self.sdks, sdk_encoder()))),
                ("packages"@, NodeView::Record(encode_bindings(self.packages, package_encoder()))),
            ],
        )
    }

    /// A lockfile in key order is written in canonical form.
    pub proof fn lemma_encode_canonical(self)
        requires
            self.wf(),
        ensures
            is_canonical(self.encode()),
    {
        lemma_encoded_keys(self.sdks, sdk_encoder());
        lemma_encoded_keys(self.packages, package_encoder());
    }

    /// Whatever order a document holds its entries in, what it decodes to
    /// stands in key order.
    pub proof fn lemma_decode_wf(node: NodeView)
        requires
            LockFileView::decode(node) is Ok,
        ensures
            LockFileView::decode(node)->Ok_0.wf(),
    {
        let entries = node->Record_0;
        let sdks = lookup(entries, "sdks"@)->0;
        let packages = lookup(entries, "packages"@)->0;
        lemma_decode_bindings_sorted(sdks->Record_0, sdk_decoder());
        lemma_decode_bindings_sorted(packages->Record_0, package_decoder());
    }

    /// An entry under a key other than `sdks` and `packages`, put in
    /// anywhere, does not change what a document decodes to.
    pub proof fn lemma_ignores_other_keys(
        entries: Seq<(Seq<char>, NodeView)>,
        at: int,
        entry: (Seq<char>, NodeView),
    )
        requires
            0 <= at <= entries.len(),
            entry.0 != "sdks"@,
            entry.0 != "packages"@,
        ensures
            LockFileView::decode(NodeView::Record(entries.insert(at, entry)))
                == LockFileView::decode(NodeView::Record(entries)),
    {
        lemma_first_fault_insert(entries, document_rule(), at, entry);
        lemma_lookup_insert_other(entries, at, entry, "sdks"@);
        lemma_lookup_insert_other(entries, at, entry, "packages"@);
    }

    /// A document that decodes, written out again and decoded a second
    /// time, gives the same lockfile.
    pub proof fn lemma_second_pass(node: NodeView)
        requires
            LockFileView::decode(node) is Ok,
        ensures
            LockFileView::decode(LockFileView::decode(node)->Ok_0.encode()) == LockFileView::decode(
                node,
            ),
    {
        Self::lemma_decode_wf(node);
        LockFileView::decode(node)->Ok_0.lemma_round_trip();
    }

    /// Decoding what `encode` wrote gives the lockfile back.
    pub proof fn lemma_round_trip(self)
        requires
            self.wf(),
        ensures
            LockFileView::decode(self.encode()) == Ok::<LockFileView, DecodeErrorView>(self),
    {
        let sdks = NodeView::Record(encode_bindings(self.sdks, sdk_encoder()));
        let packages = NodeView::Record(encode_bindings(self.packages, package_encoder()));
        assert(Self::decode_sdks(sdks) == Ok::<Seq<(Seq<char>, Seq<char>)>, DecodeErrorView>(
            self.sdks,
        )) by {
            lemma_bindings_round_trip(self.sdks, sdk_encoder(), sdk_decoder());
        }
        assert(Self::decode_packages(packages) == Ok::<
            Seq<(Seq<char>, PackageView)>,
            DecodeErrorView,
        >(self.packages)) by {
            assert forall|i: int| 0 <= i < self.packages.len() implies package_decoder()(
                (#[trigger] self.packages[i]).0,
                package_encoder()(self.packages[i].1),
            ) == Ok::<PackageView, DecodeErrorView>(self.packages[i].1) by {
                self.packages[i].1.lemma_round_trip();
            }
            lemma_bindings_round_trip(self.packages, package_encoder(), package_decoder());
        }
        let written = self.encode()->Record_0;
        assert(written[0] == ("sdks"@, sdks) && written[1] == ("packages"@, packages));
        lemma_document_fields_differ();
        lemma_first_fault_none(written, document_rule());
        assert(keys_distinct(written));
        lemma_lookup_distinct(written, 0);
        lemma_lookup_distinct(written, 1);
    }
}

/// The two field names of the document differ.
pub proof fn lemma_document_fields_differ()
    ensures
        "sdks"@ != "packages"@,
{
    reveal_strlit("sdks");
    reveal_strlit("packages");
    assert("sdks"@.len() == 4);
    assert("packages"@.len() == 8);
}

impl LockFile {
    /// Decodes the map of SDK constraints.
    pub fn decode_sdks(node: &Node) -> (r: Result<SortedMap<String>, DecodeError>)
        ensures
            viewed(r) == LockFileView::decode_sdks(node@),
    {
        match node {
            Node::Record(entries) => {
                let ghost all = entries_view(entries@);
                proof {
                    lemma_record_view(*entries);
                }
                let mut map: SortedMap<String> = SortedMap::new();
                let mut i: usize = 0;
                while i < entries.len()
                    invariant
                        0 <= i <= entries.len(),
                        all == entries_view(entries@),
                        node@ == NodeView::Record(all),
                        decode_bindings(all.take(i as int), sdk_decoder()) == Ok::<
                            Seq<(Seq<char>, Seq<char>)>,
                            DecodeErrorView,
                        >(map@),
                    decreases entries.len() - i,
                {
                    let entry = &entries[i];
                    proof {
                        lemma_decode_bindings_next(all, sdk_decoder(), i as int);
                    }
                    match text(&entry.1, entry.0.as_str()) {
                        Ok(constraint) => {
                            map.insert(entry.0.clone(), constraint);
                        },
                        Err(error) => {
                            return Err(error);
                        },
                    }
                    i = i + 1;
                }
                proof {
                    assert(all.take(i as int) =~= all);
                }
                Ok(map)
            },
            _ => Err(DecodeError::mismatch("map", "sdks")),
        }
    }

    /// Decodes the map of packages.
    pub fn decode_packages(node: &Node) -> (r: Result<SortedMap<Package>, DecodeError>)
        ensures
            viewed(r) == LockFileView::decode_packages(node@),
    {
        match node {
            Node::Record(entries) => {
                let ghost all = entries_view(entries@);
                proof {
                    lemma_record_view(*entries);
                }
                let mut map: SortedMap<Package> = SortedMap::new();
                let mut i: usize = 0;
                while i < entries.len()
                    invariant
                        0 <= i <= entries.len(),
                        all == entries_view(entries@),
                        node@ == NodeView::Record(all),
                        decode_bindings(all.take(i as int), package_decoder()) == Ok::<
                            Seq<(Seq<char>, PackageView)>,
                            DecodeErrorView,
                        >(map@),
                    decreases entries.len() - i,
                {
                    let entry = &entries[i];
                    proof {
                        lemma_decode_bindings_next(all, package_decoder(), i as int);
                    }
                    match Package::decode(&entry.1) {
                        Ok(package) => {
                            map.insert(entry.0.clone(), package);
                        },
                        Err(error) => {
                            return Err(error);
                        },
                    }
                    i = i + 1;
                }
                proof {
                    assert(all.take(i as int) =~= all);
                }
                Ok(map)
            },
            _ => Err(DecodeError::mismatch("map", "packages")),
        }
    }

    /// Decodes a lockfile from the root node of a document.
    pub fn decode(node: &Node) -> (r: Result<LockFile, DecodeError>)
        ensures
            viewed(r) == LockFileView::decode(node@),
            r matches Ok(lockfile) ==> lockfile@.wf(),
    {
        match node {
            Node::Record(entries) => {
                let ghost all = entries_view(entries@);
                proof {
                    lemma_record_view(*entries);
                }
                let mut sdks: Option<SortedMap<String>> = None;
                let mut packages: Option<SortedMap<Package>> = None;
                let mut i: usize = 0;
                while i < entries.len()
                    invariant
                        0 <= i <= entries.len(),
                        all == entries_view(entries@),
                        node@ == NodeView::Record(all),
                        first_fault(all.take(i as int), document_rule()) is None,
                        match lookup(all.take(i as int), "sdks"@) {
                            Some(node) => sdks is Some && LockFileView::decode_sdks(node) == Ok::<
                                Seq<(Seq<char>, Seq<char>)>,
                                DecodeErrorView,
                            >(sdks->0@),
                            None => sdks is None,
                        },
                        match lookup(all.take(i as int), "packages"@) {
                            Some(node) => packages is Some && LockFileView::decode_packages(node)
                                == Ok::<Seq<(Seq<char>, PackageView)>, DecodeErrorView>(
                                packages->0@,
                            ),
                            None => packages is None,
                        },
                    decreases entries.len() - i,
                {
                    let entry = &entries[i];
                    proof {
                        lemma_first_fault_next(all, document_rule(), i as int);
                        lemma_lookup_next(all, "sdks"@, i as int);
                        lemma_lookup_next(all, "packages"@, i as int);
                        lemma_document_fields_differ();
                    }
                    if same_text(entry.0.as_str(), "sdks") {
                        match Self::decode_sdks(&entry.1) {
                            Ok(map) => {
                                sdks = Some(map);
                            },
                            Err(error) => {
                                return Err(error);
                            },
                        }
                    } else if same_text(entry.0.as_str(), "packages") {
                        match Self::decode_packages(&entry.1) {
                            Ok(map) => {
                                packages = Some(map);
                            },
                            Err(error) => {
                                return Err(error);
                            },
                        }
                    }
                    i = i + 1;
                }
                proof {
                    assert(all.take(i as int) =~= all);
                }
                let sdks = match sdks {
                    Some(map) => map,
                    None => {
                        return Err(DecodeError::missing("sdks"));
                    },
                };
                let packages = match packages {
                    Some(map) => map,
                    None => {
                        return Err(DecodeError::missing("packages"));
                    },
                };
                let lockfile = LockFile { sdks, packages };
                proof {
                    LockFileView::lemma_decode_wf(node@);
                }
                Ok(lockfile)
            },
            _ => Err(DecodeError::mismatch("map", "document")),
        }
    }

    /// Encodes the map of SDK constraints, in key order.
    pub fn encode_sdks(sdks: &SortedMap<String>) -> (node: Node)
        ensures
            node@ == NodeView::Record(encode_bindings(sdks@, sdk_encoder())),
            is_sorted_record(node@),
    {
        let n = sdks.len();
        let ghost written = encode_bindings(sdks@, sdk_encoder());
        let mut entries: Vec<(String, Node)> = Vec::new();
        let mut i: usize = 0;
        while i < n
            invariant
                0 <= i <= n,
                n == sdks@.len(),
                written == encode_bindings(sdks@, sdk_encoder()),
                entries@.len() == i,
                entries_view(entries@) == written.take(i as int),
            decreases n - i,
        {
            match sdks.entry(i) {
                Some((name, constraint)) => {
                    let ghost before = entries_view(entries@);
                    let value = Node::Str(constraint.clone());
                    assert(value@ == NodeView::Str(constraint@));
                    entries.push((name.clone(), value));
                    proof {
                        let after = entries_view(entries@);
                        assert(after.len() == i + 1);
                        assert forall|k: int| 0 <= k < after.len() implies after[k]
                            == written.take(i + 1)[k] by {
                            if k < i {
                                assert(after[k] == before[k]);
                            }
                        }
                        assert(after =~= written.take(i + 1));
                    }
                },
                None => {},
            }
            i = i + 1;
        }
        proof {
            assert(written.take(i as int) =~= written);
            lemma_record_view(entries);
            lemma_encoded_keys(sdks@, sdk_encoder());
        }
        Node::Record(entries)
    }

    /// Encodes the map of packages, in key order.
    pub fn encode_packages(packages: &SortedMap<Package>) -> (node: Node)
        ensures
            node@ == NodeView::Record(encode_bindings(packages@, package_encoder())),
            is_sorted_record(node@),
    {
        let n = packages.len();
        let ghost written = encode_bindings(packages@, package_encoder());
        let mut entries: Vec<(String, Node)> = Vec::new();
        let mut i: usize = 0;
        while i < n
            invariant
                0 <= i <= n,
                n == packages@.len(),
                written == encode_bindings(packages@, package_encoder()),
                entries@.len() == i,
                entries_view(entries@) == written.take(i as int),
            decreases n - i,
        {
            match packages.entry(i) {
                Some((name, package)) => {
                    let ghost before = entries_view(entries@);
                    entries.push((name.clone(), package.encode()));
                    proof {
                        let after = entries_view(entries@);
                        assert(after.len() == i + 1);
                        assert forall|k: int| 0 <= k < after.len() implies after[k]
                            == written.take(i + 1)[k] by {
                            if k < i {
                                assert(after[k] == before[k]);
                            }
                        }
                        assert(after =~= written.take(i + 1));
                    }
                },
                None => {},
            }
            i = i + 1;
        }
        proof {
            assert(written.take(i as int) =~= written);
            lemma_record_view(entries);
            lemma_encoded_keys(packages@, package_encoder());
        }
        Node::Record(entries)
    }

    /// Encodes this lockfile as the root node of a document, in canonical
    /// form.
    pub fn encode(&self) -> (node: Node)
        ensures
            node@ == self@.encode(),
            is_canonical(node@),
            LockFileView::decode(node@) == Ok::<LockFileView, DecodeErrorView>(self@),
    {
        let sdks = Self::encode_sdks(&self.sdks);
        let packages = Self::encode_packages(&self.packages);
        let mut entries: Vec<(String, Node)> = Vec::new();
        entries.push(("sdks".to_owned(), sdks));
        entries.push(("packages".to_owned(), packages));
        proof {
            lemma_record_view(entries);
            assert(entries_view(entries@) =~= self@.encode()->Record_0);
            lemma_encoded_keys(self.sdks@, sdk_encoder());
            lemma_encoded_keys(self.packages@, package_encoder());
            self@.lemma_round_trip();
        }
        Node::Record(entries)
    }
}

} // verus!
