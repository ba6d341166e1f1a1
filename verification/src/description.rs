//! The description of a package: a bare string or a record, told apart by
//! the shape of the node.

use crate::entries::keys_distinct;
use crate::entries::lemma_lookup_distinct;
use crate::entries::lemma_lookup_insert_other;
use crate::entries::lemma_lookup_present;
use crate::entries::lookup;
use crate::error::viewed;
use crate::error::DecodeError;
use crate::error::DecodeErrorView;
use crate::node::entries_view;
use crate::node::lemma_record_view;
use crate::node::Node;
use crate::node::NodeView;
use crate::record::fault_of;
use crate::record::first_fault;
use crate::record::lemma_first_fault_insert;
use crate::record::lemma_first_fault_next;
use crate::record::lemma_first_fault_none;
use crate::record::lemma_lookup_next;
use crate::record::text;
use crate::record::text_spec;
use crate::text::same_text;
use vstd::prelude::*;

verus! {

/// What a package is, beyond its name and version.
#[derive(Debug, PartialEq, Eq)]
pub enum Description {
    /// The package is part of the Flutter SDK.
    Flutter,
    /// The package is fetched under `name` from the repository at `url`.
    Online { name: String, url: String },
}

/// The mathematical value of a [`Description`].
pub enum DescriptionView {
    Flutter,
    Online { name: Seq<char>, url: Seq<char> },
}

impl View for Description {
    type V = DescriptionView;

    open spec fn view(&self) -> DescriptionView {
        match self {
            Description::Flutter => DescriptionView::Flutter,
            Description::Online { name, url } => DescriptionView::Online { name: name@, url: url@ },
        }
    }
}

/// What is wrong with the entry `key: node` of a description record: the
/// nodes under `name` and `url` must be strings, any other entry is ignored.
pub open spec fn description_entry_fault(key: Seq<char>, node: NodeView) -> Option<
    DecodeErrorView,
> {
    if key == "name"@ || key == "url"@ {
        fault_of(text_spec(node, key))
    } else {
        None
    }
}

/// [`description_entry_fault`] as a rule for entries.
pub open spec fn description_rule() -> spec_fn(Seq<char>, NodeView) -> Option<DecodeErrorView> {
    |key: Seq<char>, node: NodeView| description_entry_fault(key, node)
}

impl DescriptionView {
    /// What decoding `node` yields.
    ///
    /// A string must be exactly `flutter`. A record is read entry by entry:
    /// the first entry under `name` or `url` that is no string fails the
    /// record; after that `name` and `url` must both be bound, and the last
    /// binding of each counts. Any other shape is refused.
    pub open spec fn decode(node: NodeView) -> Result<DescriptionView, DecodeErrorView> {
        match node {
            NodeView::Str(s) => if s == "flutter"@ {
                Ok(DescriptionView::Flutter)
            } else {
                Err(DecodeErrorView::InvalidValue(s))
            },
            NodeView::Record(entries) => match first_fault(entries, description_rule()) {
                Some(error) => Err(error),
                None => match lookup(entries, "name"@) {
                    None => Err(DecodeErrorView::MissingField("name"@)),
                    Some(name) => match lookup(entries, "url"@) {
                        None => Err(DecodeErrorView::MissingField("url"@)),
                        Some(url) => match (text_spec(name, "name"@), text_spec(url, "url"@)) {
                            (Ok(name), Ok(url)) => Ok(DescriptionView::Online { name, url }),
                            (Err(error), _) => Err(error),
                            (_, Err(error)) => Err(error),
                        },
                    },
                },
            },
            _ => Err(
                DecodeErrorView::TypeMismatch { expected: "string or map"@, field: "description"@ },
            ),
        }
    }

    /// The node that stands for `self`: the string `flutter`, or a record of
    /// exactly `name` and `url`, in this order.
    pub open spec fn encode(self) -> NodeView {
        match self {
            DescriptionView::Flutter => NodeView::Str("flutter"@),
            DescriptionView::Online { name, url } => NodeView::Record(
                seq![("name"@, NodeView::Str(name)), ("url"@, NodeView::Str(url))],
            ),
        }
    }
}

impl DescriptionView {
    /// Decoding what `encode` wrote gives the description back.
    pub proof fn lemma_round_trip(self)
        ensures
            DescriptionView::decode(self.encode()) == Ok::<DescriptionView, DecodeErrorView>(self),
    {
        match self {
            DescriptionView::Flutter => {},
            DescriptionView::Online { name, url } => {
                let entries = self.encode()->Record_0;
                reveal_strlit("name");
                reveal_strlit("url");
                assert("name"@.len() != "url"@.len());
                assert(entries.drop_last() =~= seq![("name"@, NodeView::Str(name))]);
                assert(entries.drop_last().drop_last() =~= Seq::empty());
                reveal_with_fuel(first_fault, 3);
                reveal_with_fuel(lookup, 3);
            },
        }
    }

    /// Whatever a decoded node held, encoding the result writes the string
    /// `flutter` or a record of exactly `name` and `url`: keys that decoding
    /// passed over are not written again.
    pub proof fn lemma_encode_minimal(node: NodeView)
        requires
            DescriptionView::decode(node) is Ok,
        ensures
            ({
                let written = DescriptionView::decode(node)->Ok_0.encode();
                ||| written == NodeView::Str("flutter"@)
                ||| {
                    &&& written is Record
                    &&& written->Record_0.len() == 2
                    &&& written->Record_0[0].0 == "name"@
                    &&& written->Record_0[1].0 == "url"@
                }
            }),
    {
    }

    /// An entry under a key other than `name` and `url`, put in anywhere,
    /// does not change what a record decodes to.
    pub proof fn lemma_ignores_other_keys(
        entries: Seq<(Seq<char>, NodeView)>,
        at: int,
        entry: (Seq<char>, NodeView),
    )
        requires
            0 <= at <= entries.len(),
            entry.0 != "name"@,
            entry.0 != "url"@,
        ensures
            DescriptionView::decode(NodeView::Record(entries.insert(at, entry)))
                == DescriptionView::decode(NodeView::Record(entries)),
    {
        lemma_first_fault_insert(entries, description_rule(), at, entry);
        lemma_lookup_insert_other(entries, at, entry, "name"@);
        lemma_lookup_insert_other(entries, at, entry, "url"@);
    }

    /// A record whose keys are distinct decodes to `Online { name, url }`
    /// exactly when it holds the string `name` under `name` and the string
    /// `url` under `url`, wherever the two entries stand.
    pub proof fn lemma_decode_online(
        entries: Seq<(Seq<char>, NodeView)>,
        name: Seq<char>,
        url: Seq<char>,
    )
        requires
            keys_distinct(entries),
        ensures
            DescriptionView::decode(NodeView::Record(entries)) == Ok::<
                DescriptionView,
                DecodeErrorView,
            >(DescriptionView::Online { name, url }) <==> entries.contains(
                ("name"@, NodeView::Str(name)),
            ) && entries.contains(("url"@, NodeView::Str(url))),
    {
        let wanted = Ok::<DescriptionView, DecodeErrorView>(DescriptionView::Online { name, url });
        let name_entry = ("name"@, NodeView::Str(name));
        let url_entry = ("url"@, NodeView::Str(url));
        lemma_first_fault_none(entries, description_rule());
        if entries.contains(name_entry) && entries.contains(url_entry) {
            let i = choose|i: int| 0 <= i < entries.len() && entries[i] == name_entry;
            let j = choose|j: int| 0 <= j < entries.len() && entries[j] == url_entry;
            lemma_lookup_distinct(entries, i);
            lemma_lookup_distinct(entries, j);
            assert forall|k: int| 0 <= k < entries.len() implies description_rule()(
                (#[trigger] entries[k]).0,
                entries[k].1,
            ) is None by {
                if entries[k].0 == "name"@ {
                    assert(k == i);
                } else if entries[k].0 == "url"@ {
                    assert(k == j);
                }
            }
        }
        if DescriptionView::decode(NodeView::Record(entries)) == wanted {
            let i = lemma_lookup_present(entries, "name"@);
            let j = lemma_lookup_present(entries, "url"@);
            assert(entries[i] == name_entry);
            assert(entries[j] == url_entry);
        }
    }
}

impl Description {
    /// Decodes a description from the shape of `node`.
    pub fn decode(node: &Node) -> (r: Result<Description, DecodeError>)
        ensures
            viewed(r) == DescriptionView::decode(node@),
    {
        match node {
            Node::Str(s) => {
                if same_text(s.as_str(), "flutter") {
                    Ok(Description::Flutter)
                } else {
                    Err(DecodeError::InvalidValue(s.clone()))
                }
            },
            Node::Record(entries) => {
                let ghost all = entries_view(entries@);
                proof {
                    lemma_record_view(*entries);
                }
                let mut name: Option<String> = None;
                let mut url: Option<String> = None;
                let mut i: usize = 0;
                while i < entries.len()
                    invariant
                        0 <= i <= entries.len(),
                        all == entries_view(entries@),
                        node@ == NodeView::Record(all),
                        first_fault(all.take(i as int), description_rule()) is None,
                        match lookup(all.take(i as int), "name"@) {
                            Some(node) => name is Some && text_spec(node, "name"@) == Ok::<
                                Seq<char>,
                                DecodeErrorView,
                            >(name->0@),
                            None => name is None,
                        },
                        match lookup(all.take(i as int), "url"@) {
                            Some(node) => url is Some && text_spec(node, "url"@) == Ok::<
                                Seq<char>,
                                DecodeErrorView,
                            >(url->0@),
                            None => url is None,
                        },
                    decreases entries.len() - i,
                {
                    let entry = &entries[i];
                    proof {
                        lemma_first_fault_next(all, description_rule(), i as int);
                        lemma_lookup_next(all, "name"@, i as int);
                        lemma_lookup_next(all, "url"@, i as int);
                        reveal_strlit("name");
                        reveal_strlit("url");
                        assert("name"@.len() != "url"@.len());
                    }
                    if same_text(entry.0.as_str(), "name") {
                        match text(&entry.1, "name") {
                            Ok(s) => {
                                name = Some(s);
                            },
                            Err(error) => {
                                return Err(error);
                            },
                        }
                    } else if same_text(entry.0.as_str(), "url") {
                        match text(&entry.1, "url") {
                            Ok(s) => {
                                url = Some(s);
                            },
                            Err(error) => {
                                return Err(error);
                            },
                        }
                    }
                    i = i + 1;
                }
                proof {
                    assert(all.take(i as int) =~= all);
                }
                match name {
                    None => Err(DecodeError::missing("name")),
                    Some(name) => match url {
                        None => Err(DecodeError::missing("url")),
                        Some(url) => Ok(Description::Online { name, url }),
                    },
                }
            },
            _ => Err(DecodeError::mismatch("string or map", "description")),
        }
    }

    /// Encodes this description in its own shape.
    pub fn encode(&self) -> (node: Node)
        ensures
            node@ == self@.encode(),
    {
        match self {
            Description::Flutter => Node::Str("flutter".to_owned()),
            Description::Online { name, url } => {
                let mut entries: Vec<(String, Node)> = Vec::new();
                entries.push(("name".to_owned(), Node::Str(name.clone())));
                entries.push(("url".to_owned(), Node::Str(url.clone())));
                proof {
                    lemma_record_view(entries);
                    assert(entries_view(entries@) =~= seq![
                        ("name"@, NodeView::Str(name@)),
                        ("url"@, NodeView::Str(url@)),
                    ]);
                }
                Node::Record(entries)
            },
        }
    }
}

} // verus!
