//! Record kinds and statistics of the vector store.
use vstd::prelude::*;
use vstd::string::*;
use crate::text::chars_of;

verus! {

/// Statistics of a collection.
#[derive(Debug, Clone)]
pub struct CollectionStats {
    pub total_points: u64,
    pub collection_name: String,
}

/// Kind of an indexed record: a text chunk or the context of an image.
#[derive(Debug, Clone, Copy, PartialEq, Eq, Structural)]
pub enum PointType {
    Text,
    Image,
}

/// Whether two strings hold the same characters.
pub(crate) fn same_text(a: &str, b: &str) -> (r: bool)
    ensures
        r == (a@ == b@),
{
    let x = chars_of(a);
    let y = chars_of(b);
    if x.len() != y.len() {
        return false;
    }
    let mut i: usize = 0;
    while i < x.len()
        invariant
            x@ == a@,
            y@ == b@,
            x@.len() == y@.len(),
            i <= x@.len(),
            x@.take(i as int) == y@.take(i as int),
        decreases x@.len() - i,
    {
        if x[i] != y[i] {
            return false;
        }
        i = i + 1;
        proof {
            assert(x@.take(i as int) =~= x@.take(i - 1).push(x@[i - 1]));
            assert(y@.take(i as int) =~= y@.take(i - 1).push(y@[i - 1]));
        }
    }
    proof {
        assert(x@ =~= x@.take(i as int));
        assert(y@ =~= y@.take(i as int));
    }
    true
}

impl PointType {
    /// The name under which the kind is stored.
    pub fn as_str(&self) -> (r: &str)
        ensures
            *self == PointType::Text ==> r@ == "text"@,
            *self == PointType::Image ==> r@ == "image"@,
    {
        match self {
            PointType::Text => "text",
            PointType::Image => "image",
        }
    }

    /// The kind stored under `s`, if any.
    pub fn from_str(s: &str) -> (r: Option<PointType>)
        ensures
            s@ == "text"@ ==> r == Some(PointType::Text),
            s@ == "image"@ ==> r == Some(PointType::Image),
            s@ != "text"@ && s@ != "image"@ ==> r is None,
    {
        proof {
            reveal_strlit("text");
            reveal_strlit("image");
            assert("text"@.len() != "image"@.len());
        }
        if same_text(s, "text") {
            Some(PointType::Text)
        } else if same_text(s, "image") {
            Some(PointType::Image)
        } else {
            None
        }
    }
}

} // verus!
