//! The two closed sets of string-tagged classifiers of a package.

use crate::error::viewed;
use crate::error::DecodeError;
use crate::error::DecodeErrorView;
use crate::node::Node;
use crate::node::NodeView;
use crate::text::same_text;
use vstd::prelude::*;

verus! {

/// Why a package is part of the dependency graph.
#[derive(Clone, Copy, Debug, PartialEq, Eq)]
pub enum DependencyKind {
    DirectMain,
    DirectDev,
    Transitive,
}

/// Where a package comes from.
#[derive(Clone, Copy, Debug, PartialEq, Eq)]
pub enum PackageSource {
    Sdk,
    Hosted,
}

impl View for DependencyKind {
    type V = DependencyKind;

    open spec fn view(&self) -> DependencyKind {
        *self
    }
}

impl View for PackageSource {
    type V = PackageSource;

    open spec fn view(&self) -> PackageSource {
        *self
    }
}

impl DependencyKind {
    /// The one string that stands for this variant.
    pub open spec fn text(self) -> Seq<char> {
        match self {
            DependencyKind::DirectMain => "direct main"@,
            DependencyKind::DirectDev => "direct dev"@,
            DependencyKind::Transitive => "transitive"@,
        }
    }

    /// The variant that `s` stands for: an exact match, or none.
    pub open spec fn from_text(s: Seq<char>) -> Option<DependencyKind> {
        if s == "direct main"@ {
            Some(DependencyKind::DirectMain)
        } else if s == "direct dev"@ {
            Some(DependencyKind::DirectDev)
        } else if s == "transitive"@ {
            Some(DependencyKind::Transitive)
        } else {
            None
        }
    }

    /// The strings that stand for a variant, in the order of the variants.
    pub open spec fn allowed() -> Seq<Seq<char>> {
        seq!["direct main"@, "direct dev"@, "transitive"@]
    }

    /// What decoding `node` yields.
    pub open spec fn decode_spec(node: NodeView) -> Result<DependencyKind, DecodeErrorView> {
        match node {
            NodeView::Str(s) => match Self::from_text(s) {
                Some(kind) => Ok(kind),
                None => Err(DecodeErrorView::UnknownVariant { value: s, allowed: Self::allowed() }),
            },
            _ => Err(DecodeErrorView::TypeMismatch { expected: "string"@, field: "dependency"@ }),
        }
    }

    /// The node that stands for `self`.
    pub open spec fn encode_spec(self) -> NodeView {
        NodeView::Str(self.text())
    }

    /// Each variant is read back from its own string, and from no other.
    pub proof fn lemma_text_exact(self, s: Seq<char>)
        ensures
            Self::from_text(s) == Some(self) <==> s == self.text(),
    {
        reveal_strlit("direct main");
        reveal_strlit("direct dev");
        reveal_strlit("transitive");
        if s == self.text() {
            assert("direct main"@.len() == 11);
            assert("direct dev"@.len() == 10);
            assert("transitive"@[0] == 't');
            assert("direct dev"@[0] == 'd');
        }
    }

    /// Decoding the encoding of a variant gives the variant back.
    pub proof fn lemma_round_trip(self)
        ensures
            Self::decode_spec(self.encode_spec()) == Ok::<DependencyKind, DecodeErrorView>(self),
    {
        self.lemma_text_exact(self.text());
    }

    /// The string that stands for this variant.
    pub fn as_str(self) -> (s: &'static str)
        ensures
            s@ == self.text(),
    {
        match self {
            DependencyKind::DirectMain => "direct main",
            DependencyKind::DirectDev => "direct dev",
            DependencyKind::Transitive => "transitive",
        }
    }

    /// Reads a variant from its string: exact match only.
    pub fn parse(s: &str) -> (r: Option<DependencyKind>)
        ensures
            r == Self::from_text(s@),
    {
        if same_text(s, "direct main") {
            Some(DependencyKind::DirectMain)
        } else if same_text(s, "direct dev") {
            Some(DependencyKind::DirectDev)
        } else if same_text(s, "transitive") {
            Some(DependencyKind::Transitive)
        } else {
            None
        }
    }

    /// Decodes a dependency kind from a string node.
    pub fn decode(node: &Node) -> (r: Result<DependencyKind, DecodeError>)
        ensures
            viewed(r) == Self::decode_spec(node@),
    {
        match node {
            Node::Str(s) => match Self::parse(s.as_str()) {
                Some(kind) => Ok(kind),
                None => {
                    let mut allowed: Vec<String> = Vec::new();
                    allowed.push("direct main".to_owned());
                    allowed.push("direct dev".to_owned());
                    allowed.push("transitive".to_owned());
                    let error = DecodeError::UnknownVariant { value: s.clone(), allowed };
                    assert(error@->UnknownVariant_allowed =~= Self::allowed());
                    Err(error)
                },
            },
            _ => Err(DecodeError::mismatch("string", "dependency")),
        }
    }

    /// Encodes this variant as its string node.
    pub fn encode(self) -> (node: Node)
        ensures
            node@ == self.encode_spec(),
    {
        Node::Str(self.as_str().to_owned())
    }
}

impl PackageSource {
    /// The one string that stands for this variant.
    pub open spec fn text(self) -> Seq<char> {
        match self {
            PackageSource::Sdk => "sdk"@,
            PackageSource::Hosted => "hosted"@,
        }
    }

    /// The variant that `s` stands for: an exact match, or none.
    pub open spec fn from_text(s: Seq<char>) -> Option<PackageSource> {
        if s == "sdk"@ {
            Some(PackageSource::Sdk)
        } else if s == "hosted"@ {
            Some(PackageSource::Hosted)
        } else {
            None
        }
    }

    /// The strings that stand for a variant, in the order of the variants.
    pub open spec fn allowed() -> Seq<Seq<char>> {
        seq!["sdk"@, "hosted"@]
    }

    /// What decoding `node` yields.
    pub open spec fn decode_spec(node: NodeView) -> Result<PackageSource, DecodeErrorView> {
        match node {
            NodeView::Str(s) => match Self::from_text(s) {
                Some(source) => Ok(source),
                None => Err(DecodeErrorView::UnknownVariant { value: s, allowed: Self::allowed() }),
            },
            _ => Err(DecodeErrorView::TypeMismatch { expected: "string"@, field: "source"@ }),
        }
    }

    /// The node that stands for `self`.
    pub open spec fn encode_spec(self) -> NodeView {
        NodeView::Str(self.text())
    }

    /// Each variant is read back from its own string, and from no other.
    pub proof fn lemma_text_exact(self, s: Seq<char>)
        ensures
            Self::from_text(s) == Some(self) <==> s == self.text(),
    {
        reveal_strlit("sdk");
        reveal_strlit("hosted");
        if s == self.text() {
            assert("sdk"@.len() == 3);
            assert("hosted"@.len() == 6);
        }
    }

    /// Decoding the encoding of a variant gives the variant back.
    pub proof fn lemma_round_trip(self)
        ensures
            Self::decode_spec(self.encode_spec()) == Ok::<PackageSource, DecodeErrorView>(self),
    {
        self.lemma_text_exact(self.text());
    }

    /// The string that stands for this variant.
    pub fn as_str(self) -> (s: &'static str)
        ensures
            s@ == self.text(),
    {
        match self {
            PackageSource::Sdk => "sdk",
            PackageSource::Hosted => "hosted",
        }
    }

    /// Reads a variant from its string: exact match only.
    pub fn parse(s: &str) -> (r: Option<PackageSource>)
        ensures
            r == Self::from_text(s@),
    {
        if same_text(s, "sdk") {
            Some(PackageSource::Sdk)
        } else if same_text(s, "hosted") {
            Some(PackageSource::Hosted)
        } else {
            None
        }
    }

    /// Decodes a package source from a string node.
    pub fn decode(node: &Node) -> (r: Result<PackageSource, DecodeError>)
        ensures
            viewed(r) == Self::decode_spec(node@),
    {
        match node {
            Node::Str(s) => match Self::parse(s.as_str()) {
                Some(source) => Ok(source),
                None => {
                    let mut allowed: Vec<String> = Vec::new();
                    allowed.push("sdk".to_owned());
                    allowed.push("hosted".to_owned());
                    let error = DecodeError::UnknownVariant { value: s.clone(), allowed };
                    assert(error@->UnknownVariant_allowed =~= Self::allowed());
                    Err(error)
                },
            },
            _ => Err(DecodeError::mismatch("string", "source")),
        }
    }

    /// Encodes this variant as its string node.
    pub fn encode(self) -> (node: Node)
        ensures
            node@ == self.encode_spec(),
    {
        Node::Str(self.as_str().to_owned())
    }
}

} // verus!
