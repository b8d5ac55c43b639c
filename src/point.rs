use vstd::prelude::*;
use crate::scalar::{abs, decimal, push_decimal};

verus! {

/// A point on the integer grid.
#[derive(Clone, Copy, Debug, PartialEq, Eq, Structural)]
pub struct Point {
    pub x: i32,
    pub y: i32,
}

/// An integer in decimal, with a minus sign when negative.
pub open spec fn int_text(n: int) -> Seq<char> {
    (if n < 0 { seq!['-'] } else { Seq::empty() }) + decimal(abs(n) as nat)
}

fn push_int(s: &mut String, n: i32)
    ensures
        final(s)@ == old(s)@ + int_text(n as int),
{
    if n < 0 {
        proof { reveal_strlit("-"); }
        s.append("-");
    }
    let m: u64 = if n < 0 {
        (-(n as i64)) as u64
    } else {
        n as u64
    };
    push_decimal(s, m);
    assert(final(s)@ =~= old(s)@ + int_text(n as int));
}

impl Point {
    /// The point as `(x,y)` followed by a newline.
    pub fn to_text(&self) -> (r: String)
        ensures
            r@ == seq!['('] + int_text(self.x as int) + seq![','] + int_text(self.y as int) + seq![')', '\n'],
    {
        let mut s = String::new();
        proof { reveal_strlit("("); }
        s.append("(");
        push_int(&mut s, self.x);
        proof { reveal_strlit(","); }
        s.append(",");
        push_int(&mut s, self.y);
        proof { reveal_strlit(")\n"); }
        s.append(")\n");
        assert(s@ =~= seq!['('] + int_text(self.x as int) + seq![','] + int_text(self.y as int) + seq![')', '\n']);
        s
    }
}

} // verus!
