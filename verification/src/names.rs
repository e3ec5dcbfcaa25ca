use vstd::prelude::*;

use crate::error::Error;

verus! {

/// The decoded form of a tree-entry name: either the reserved marker that
/// every directory-equivalent tree carries as its first entry, or a real
/// child component.
///
/// Every real component is escaped with a leading '1' and the marker is the
/// bare name "0", so the marker sorts before any legal escaped name and no
/// component can ever encode to the reserved form.
#[derive(Clone, Debug, PartialEq, Eq)]
pub enum TreeEntryName {
    Marker,
    Child(String),
}

pub enum TreeEntryNameV {
    Marker,
    Child(Seq<char>),
}

impl View for TreeEntryName {
    type V = TreeEntryNameV;

    open spec fn view(&self) -> TreeEntryNameV {
        match self {
            TreeEntryName::Marker => TreeEntryNameV::Marker,
            TreeEntryName::Child(c) => TreeEntryNameV::Child(c@),
        }
    }
}

/// The reserved marker entry name, in encoded form.
pub open spec fn marker_name() -> Seq<char> {
    seq!['0']
}

pub open spec fn encode_name(n: TreeEntryNameV) -> Seq<char> {
    match n {
        TreeEntryNameV::Marker => seq!['0'],
        TreeEntryNameV::Child(c) => seq!['1'] + c,
    }
}

pub open spec fn decode_name(s: Seq<char>) -> Result<TreeEntryNameV, Error> {
    if s == seq!['0'] {
        Ok(TreeEntryNameV::Marker)
    } else if s.len() >= 1 && s[0] == '1' {
        Ok(TreeEntryNameV::Child(s.drop_first()))
    } else {
        Err(Error::ReservedNameCollision)
    }
}

/// Decoding undoes encoding for every component, and no component ever
/// encodes to the reserved marker form.
pub proof fn lemma_name_roundtrip(c: Seq<char>)
    ensures
        decode_name(encode_name(TreeEntryNameV::Child(c))) == Ok::<TreeEntryNameV, Error>(
            TreeEntryNameV::Child(c),
        ),
        encode_name(TreeEntryNameV::Child(c)) != marker_name(),
{
    let e = encode_name(TreeEntryNameV::Child(c));
    assert(e[0] == '1');
    assert(e != seq!['0']);
    assert(e.drop_first() =~= c);
}

/// The name encoding is injective.
pub proof fn lemma_name_injective(a: TreeEntryNameV, b: TreeEntryNameV)
    requires
        encode_name(a) == encode_name(b),
    ensures
        a == b,
{
    match (a, b) {
        (TreeEntryNameV::Child(x), TreeEntryNameV::Child(y)) => {
            assert(x =~= encode_name(a).drop_first());
            assert(y =~= encode_name(b).drop_first());
        },
        (TreeEntryNameV::Marker, TreeEntryNameV::Child(y)) => {
            assert(encode_name(a)[0] == '0');
        },
        (TreeEntryNameV::Child(x), TreeEntryNameV::Marker) => {
            assert(encode_name(b)[0] == '0');
        },
        _ => {},
    }
}

impl TreeEntryName {
    /// Encodes this name to the form stored in a tree entry.
    pub fn encode(&self) -> (r: String)
        ensures
            r@ == encode_name(self@),
    {
        match self {
            TreeEntryName::Marker => {
                let r = String::from_str("0");
                proof {
                    reveal_strlit("0");
                    assert(r@ =~= seq!['0']);
                }
                r
            },
            TreeEntryName::Child(c) => {
                let mut r = String::from_str("1");
                r.append(c.as_str());
                proof {
                    reveal_strlit("1");
                    assert(r@ =~= seq!['1'] + c@);
                }
                r
            },
        }
    }

    /// Decodes a stored entry name, failing if it matches neither the
    /// reserved marker form nor a legally escaped component.
    pub fn decode(s: &str) -> (r: Result<TreeEntryName, Error>)
        ensures
            r is Ok ==> decode_name(s@) == Ok::<TreeEntryNameV, Error>(r->Ok_0@),
            (r is Ok) == (decode_name(s@) is Ok),
            r is Err ==> r->Err_0 == Error::ReservedNameCollision,
    {
        let n = s.unicode_len();
        if n == 1 && s.get_char(0) == '0' {
            proof {
                assert(s@ =~= seq!['0']);
            }
            Ok(TreeEntryName::Marker)
        } else if n >= 1 && s.get_char(0) == '1' {
            let c = s.substring_char(1, n);
            proof {
                assert(c@ =~= s@.drop_first());
                if s@ == seq!['0'] {
                    assert(s@[0] == '0');
                }
            }
            Ok(TreeEntryName::Child(String::from_str(c)))
        } else {
            proof {
                if s@ == seq!['0'] {
                    assert(s@.len() == 1 && s@[0] == '0');
                }
            }
            Err(Error::ReservedNameCollision)
        }
    }

    pub fn is_marker(&self) -> (r: bool)
        ensures
            r == (self@ is Marker),
    {
        match self {
            TreeEntryName::Marker => true,
            TreeEntryName::Child(_) => false,
        }
    }

    /// The component name, for a non-marker entry.
    pub fn child(&self) -> (r: Option<&String>)
        ensures
            (r is Some) == (self@ is Child),
            r matches Some(c) ==> self@ == TreeEntryNameV::Child(c@),
    {
        match self {
            TreeEntryName::Marker => None,
            TreeEntryName::Child(c) => Some(c),
        }
    }
}

} // verus!
