//! The text of a surreal value in set notation, as an aid for the eye:
//! `({l1 l2 ...}, {r1 r2 ...})`, with each option written the same way.

use crate::form::{lemma_rise_bounds, lemma_rise_drop_last, lemma_rise_take, rise, Form};
use crate::surreal::{forms, Surreal};
use vstd::prelude::*;
use vstd::string::StringExecFns;

verus! {

/// The texts of the forms in `s`, with one blank between neighbours.
pub open spec fn joined(s: Seq<Form>) -> Seq<char>
    decreases rise(s), 0nat, s.len(),
{
    if s.len() == 0 {
        Seq::empty()
    } else {
        proof {
            lemma_rise_bounds(s, s.len() - 1);
            lemma_rise_drop_last(s);
        }
        if s.len() == 1 {
            s.last().text()
        } else {
            joined(s.drop_last()) + seq![' '] + s.last().text()
        }
    }
}

impl Form {
    /// The form in set notation: `({` the left options `}, {` the right
    /// options `})`.
    pub open spec fn text(self) -> Seq<char>
        decreases self.depth(), 1nat, 0nat,
    {
        seq!['(', '{'] + ({
            proof {
                assert(rise(self.left) <= self.depth());
            }
            joined(self.left)
        }) + seq!['}', ',', ' ', '{'] + ({
            proof {
                assert(rise(self.right) <= self.depth());
            }
            joined(self.right)
        }) + seq!['}', ')']
    }
}

/// Appends to `out` the texts of the values in `v`, with one blank
/// between neighbours.
fn render_each(v: &Vec<Surreal>, out: &mut String)
    ensures
        final(out)@ == old(out)@ + joined(forms(v@)),
    decreases rise(forms(v@)), 0nat,
{
    let ghost before = out@;
    let ghost f = forms(v@);
    let mut i: usize = 0;
    proof {
        assert(f.take(0) =~= Seq::<Form>::empty());
        assert(out@ =~= before + joined(f.take(0)));
    }
    while i < v.len()
        invariant
            0 <= i <= v.len(),
            f == forms(v@),
            out@ == before + joined(f.take(i as int)),
        decreases v.len() - i,
    {
        proof {
            lemma_rise_bounds(f, i as int);
            lemma_rise_take(f, i + 1);
            assert(f.take(i + 1).drop_last() =~= f.take(i as int));
            assert(f.take(i + 1).last() == v[i as int]@);
            reveal_strlit(" ");
        }
        if i > 0 {
            out.append(" ");
            proof {
                assert(" "@ =~= seq![' ']);
            }
        }
        render_into(&v[i], out);
        proof {
            assert(out@ =~= before + joined(f.take(i + 1)));
        }
        i += 1;
    }
    proof {
        assert(f.take(v.len() as int) =~= f);
    }
}

/// Appends the text of `x` to `out`.
fn render_into(x: &Surreal, out: &mut String)
    ensures
        final(out)@ == old(out)@ + x@.text(),
    decreases x@.depth(), 1nat,
{
    let ghost before = out@;
    proof {
        reveal_strlit("({");
        reveal_strlit("}, {");
        reveal_strlit("})");
        assert("({"@ =~= seq!['(', '{']);
        assert("}, {"@ =~= seq!['}', ',', ' ', '{']);
        assert("})"@ =~= seq!['}', ')']);
    }
    out.append("({");
    render_each(x.left_options(), out);
    out.append("}, {");
    render_each(x.right_options(), out);
    out.append("})");
    proof {
        assert(out@ =~= before + x@.text());
    }
}

impl Surreal {
    /// The value in set notation, such as `({({}, {})}, {})` for one.
    pub fn render(&self) -> (s: String)
        ensures
            s@ == self@.text(),
    {
        let mut s = String::new();
        render_into(self, &mut s);
        proof {
            assert(s@ =~= self@.text());
        }
        s
    }
}

} // verus!
