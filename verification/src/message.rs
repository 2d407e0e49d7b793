//! Messages that quote floating-point numbers.
//!
//! The wording of a message is fixed here; how a number is written out is left
//! to the caller.

use vstd::prelude::*;
use crate::ieee::Real64;
use crate::text::push_decimal;
#[allow(unused_imports)]
use crate::text::decimal;

verus! {

/// A piece of a message.
#[derive(Clone, Copy, Debug)]
pub enum Part {
    /// Fixed words.
    Text(&'static str),
    /// A number, in its shortest exact notation.
    Number(Real64),
    /// A number, rounded to an integer.
    Rounded(Real64),
    /// A count, in decimal.
    Count(u64),
}

/// Writes numbers out.
pub trait NumberText {
    /// The shortest notation that reads back as `v`.
    fn number(&self, v: Real64) -> String;

    /// `v` without a fractional part.
    fn rounded(&self, v: Real64) -> String;
}

/// `s` is `part` written out by `n`.
pub open spec fn writes_as<N: NumberText>(n: N, part: Part, s: Seq<char>) -> bool {
    match part {
        Part::Text(t) => s == t@,
        Part::Number(v) => exists|w: String| #[trigger] call_ensures(N::number, (&n, v), w) && s == w@,
        Part::Rounded(v) => exists|w: String| #[trigger]
            call_ensures(N::rounded, (&n, v), w) && s == w@,
        Part::Count(c) => s == decimal(c as nat),
    }
}

/// The strings one after the other.
pub open spec fn joined(pieces: Seq<Seq<char>>) -> Seq<char>
    decreases pieces.len(),
{
    if pieces.len() == 0 {
        seq![]
    } else {
        joined(pieces.drop_last()) + pieces.last()
    }
}

/// `pieces` are `parts` written out by `n`, one by one.
pub open spec fn pieces_of<N: NumberText>(n: N, parts: Seq<Part>, pieces: Seq<Seq<char>>) -> bool {
    &&& pieces.len() == parts.len()
    &&& forall|k: int| 0 <= k < parts.len() ==> #[trigger] writes_as(n, parts[k], pieces[k])
}

/// `s` is the message made of `parts`.
pub open spec fn reads_as<N: NumberText>(n: N, parts: Seq<Part>, s: Seq<char>) -> bool {
    exists|pieces: Seq<Seq<char>>| #[trigger] pieces_of(n, parts, pieces) && s == joined(pieces)
}

/// Write a message out.
pub fn render<N: NumberText>(parts: &Vec<Part>, n: &N) -> (s: String)
    ensures
        reads_as(*n, parts@, s@),
{
    let mut s = String::new();
    let ghost mut pieces: Seq<Seq<char>> = seq![];
    let mut k: usize = 0;
    while k < parts.len()
        invariant
            k <= parts@.len(),
            pieces_of(*n, parts@.take(k as int), pieces),
            s@ == joined(pieces),
        decreases parts.len() - k,
    {
        let ghost before = s@;
        let ghost piece: Seq<char>;
        match parts[k] {
            Part::Text(t) => {
                s.append(t);
                proof {
                    piece = t@;
                }
            },
            Part::Number(v) => {
                let w = n.number(v);
                s.append(w.as_str());
                proof {
                    assert(call_ensures(N::number, (n, v), w));
                    piece = w@;
                }
            },
            Part::Rounded(v) => {
                let w = n.rounded(v);
                s.append(w.as_str());
                proof {
                    assert(call_ensures(N::rounded, (n, v), w));
                    piece = w@;
                }
            },
            Part::Count(c) => {
                push_decimal(&mut s, c);
                proof {
                    piece = decimal(c as nat);
                }
            },
        }
        proof {
            assert(writes_as(*n, parts@[k as int], piece));
            let grown = pieces.push(piece);
            assert(grown.drop_last() =~= pieces);
            let seen = parts@.take(k + 1);
            assert forall|j: int| 0 <= j < seen.len() implies #[trigger] writes_as(
                *n,
                seen[j],
                grown[j],
            ) by {
                if j < k {
                    assert(writes_as(*n, parts@.take(k as int)[j], pieces[j]));
                }
            }
            pieces = grown;
        }
        k = k + 1;
    }
    assert(parts@.take(k as int) =~= parts@);
    s
}

} // verus!
