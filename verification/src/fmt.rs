//! Diagnostic rendering of a set.
//!
//! A set renders as a parenthesized list of the labels of its values, in
//! ascending bit-index order, joined by a fixed separator.  The rendering
//! is for diagnostics, not a stable serialization format.

use vstd::prelude::*;
use vstd::string::StringExecFns;
use crate::positions::bit_positions;
use crate::set_type::EnumSet;
use crate::traits::EnumSetType;

verus! {

/// An enumeration whose values carry a printable label.
pub trait EnumSetTypeNamed: EnumSetType {
    /// The label of this value.
    spec fn spec_name(self) -> Seq<char>;

    /// The label of this value, as a run-time string.
    fn variant_name(self) -> (r: String)
        ensures
            r@ == self.spec_name(),
    ;
}

/// The value owning bit position `p`, at the specification level.
pub open spec fn value_at<T: EnumSetType>(p: nat) -> T {
    choose|u: T| u.spec_bit() as nat == p
}

/// The labels of the values at the given positions, joined by `" | "`.
pub open spec fn spec_labels<T: EnumSetTypeNamed>(ps: Seq<nat>) -> Seq<char>
    decreases ps.len(),
{
    if ps.len() == 0 {
        Seq::empty()
    } else if ps.len() == 1 {
        value_at::<T>(ps[0]).spec_name()
    } else {
        value_at::<T>(ps[0]).spec_name() + " | "@ + spec_labels::<T>(ps.drop_first())
    }
}

/// How the rendered labels grow when one more position is appended.
proof fn lemma_labels_push<T: EnumSetTypeNamed>(q: Seq<nat>, p: nat)
    ensures
        q.len() == 0 ==> spec_labels::<T>(q.push(p)) == value_at::<T>(p).spec_name(),
        q.len() > 0 ==> spec_labels::<T>(q.push(p)) == spec_labels::<T>(q) + " | "@
            + value_at::<T>(p).spec_name(),
    decreases q.len(),
{
    if q.len() == 0 {
        assert(q.push(p) =~= seq![p]);
    } else if q.len() == 1 {
        assert(q.push(p).drop_first() =~= seq![p]);
        assert(q.push(p)[0] == q[0]);
        assert(spec_labels::<T>(seq![p]) == value_at::<T>(p).spec_name());
        assert(spec_labels::<T>(q.push(p)) =~= spec_labels::<T>(q) + " | "@ + value_at::<T>(
            p,
        ).spec_name());
    } else {
        lemma_labels_push::<T>(q.drop_first(), p);
        assert(q.push(p).drop_first() =~= q.drop_first().push(p));
        assert(q.push(p)[0] == q[0]);
        assert(value_at::<T>(q[0]).spec_name() + " | "@ + (spec_labels::<T>(q.drop_first())
            + " | "@ + value_at::<T>(p).spec_name()) =~= (value_at::<T>(q[0]).spec_name()
            + " | "@ + spec_labels::<T>(q.drop_first())) + " | "@ + value_at::<T>(
            p,
        ).spec_name());
        assert(spec_labels::<T>(q.push(p)) =~= spec_labels::<T>(q) + " | "@ + value_at::<T>(
            p,
        ).spec_name());
    }
}

impl<T: EnumSetTypeNamed> EnumSet<T> {
    /// Renders the set as `EnumSet(` followed by the labels of its values
    /// in ascending bit-index order, joined by `" | "`, and a closing
    /// parenthesis.
    pub fn debug_string(&self) -> (r: String)
        requires
            self.wf(),
        ensures
            r@ == "EnumSet("@ + spec_labels::<T>(bit_positions(self@)) + ")"@,
    {
        let ghost ps = bit_positions(self@);
        let mut out: String = "EnumSet(".to_owned();
        let mut it = self.iter();
        let mut first: bool = true;
        let ghost mut k: int = 0;
        proof {
            assert(out@ =~= "EnumSet("@ + spec_labels::<T>(ps.take(0)));
        }
        loop
            invariant
                it.wf(),
                0 <= k <= ps.len(),
                it.remaining() =~= ps.skip(k),
                first == (k == 0),
                out@ == "EnumSet("@ + spec_labels::<T>(ps.take(k)),
            ensures
                out@ == "EnumSet("@ + spec_labels::<T>(ps),
            decreases ps.len() - k,
        {
            match it.next() {
                None => {
                    proof {
                        assert(ps.skip(k).len() == 0);
                        assert(ps.take(k) =~= ps);
                    }
                    break ;
                },
                Some(v) => {
                    proof {
                        assert(ps.skip(k)[0] == ps[k]);
                        assert(v.spec_bit() as nat == ps[k]);
                        let u = value_at::<T>(ps[k]);
                        assert(u.spec_bit() as nat == ps[k]) by {
                            assert(v.spec_bit() as nat == ps[k]);
                        }
                        u.lemma_bit_injective(v);
                        assert(u == v);
                        lemma_labels_push::<T>(ps.take(k), ps[k]);
                        assert(ps.take(k).push(ps[k]) =~= ps.take(k + 1));
                        assert(ps.skip(k).drop_first() =~= ps.skip(k + 1));
                    }
                    if !first {
                        out.append(" | ");
                    }
                    let name = v.variant_name();
                    out.append(name.as_str());
                    proof {
                        if k == 0 {
                            assert(("EnumSet("@ + spec_labels::<T>(ps.take(0)))
                                + v.spec_name() =~= "EnumSet("@ + spec_labels::<T>(
                                ps.take(1),
                            ));
                        } else {
                            assert((("EnumSet("@ + spec_labels::<T>(ps.take(k))) + " | "@)
                                + v.spec_name() =~= "EnumSet("@ + spec_labels::<T>(
                                ps.take(k + 1),
                            ));
                        }
                        k = k + 1;
                    }
                    first = false;
                },
            }
        }
        out.append(")");
        out
    }
}

} // verus!
