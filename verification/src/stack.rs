//! The shader stack of a buffer, kept in order of the shaders' `order` field.
use vstd::prelude::*;
use crate::buffer::{Buffer, BufferShader};

verus! {

/// The shaders of `s` whose order is `o`, in the order they stand in `s`.
pub open spec fn with_order(s: Seq<BufferShader>, o: int) -> Seq<BufferShader>
    decreases s.len(),
{
    if s.len() == 0 {
        Seq::empty()
    } else {
        let p = with_order(s.drop_last(), o);
        if s.last().order == o {
            p.push(s.last())
        } else {
            p
        }
    }
}

/// The shaders of `s` whose order is below `o`: first those of order 0, then those of
/// order 1, and so on, each group in the order it stands in `s`.
pub open spec fn orders_below(s: Seq<BufferShader>, o: int) -> Seq<BufferShader>
    decreases o,
{
    if o <= 0 {
        Seq::empty()
    } else {
        orders_below(s, o - 1) + with_order(s, o - 1)
    }
}

/// `s` sorted stably by order: shaders of a lower order come first, shaders of the same
/// order keep their relative position.
pub open spec fn sort_by_order(s: Seq<BufferShader>) -> Seq<BufferShader> {
    orders_below(s, 256)
}

/// The shaders of `s` are in nondecreasing order.
pub open spec fn is_sorted_by_order(s: Seq<BufferShader>) -> bool {
    forall|i: int, j: int| 0 <= i <= j < s.len() ==> (#[trigger] s[i]).order <= (#[trigger] s[j]).order
}

/// Every shader that `with_order` keeps has that order and comes from `s`.
pub proof fn lemma_with_order(s: Seq<BufferShader>, o: int)
    ensures
        forall|k: int| 0 <= k < with_order(s, o).len() ==> (#[trigger] with_order(s, o)[k]).order == o,
        forall|k: int| 0 <= k < with_order(s, o).len() ==> s.contains(#[trigger] with_order(s, o)[k]),
        with_order(s, o).len() <= s.len(),
    decreases s.len(),
{
    if s.len() > 0 {
        lemma_with_order(s.drop_last(), o);
        let p = with_order(s.drop_last(), o);
        assert forall|k: int| 0 <= k < p.len() implies s.contains(#[trigger] p[k]) by {
            assert(s.drop_last().contains(p[k]));
            let j = choose|j: int| 0 <= j < s.drop_last().len() && s.drop_last()[j] == p[k];
            assert(s[j] == p[k]);
        }
        assert(s[s.len() - 1] == s.last());
    }
}

/// Every shader that `orders_below` keeps has an order below `o`, and the result is sorted.
pub proof fn lemma_orders_below(s: Seq<BufferShader>, o: int)
    ensures
        forall|k: int| 0 <= k < orders_below(s, o).len() ==> (#[trigger] orders_below(s, o)[k]).order < o,
        is_sorted_by_order(orders_below(s, o)),
    decreases o,
{
    if o > 0 {
        lemma_orders_below(s, o - 1);
        lemma_with_order(s, o - 1);
        let a = orders_below(s, o - 1);
        let b = with_order(s, o - 1);
        assert forall|i: int, j: int| 0 <= i <= j < (a + b).len() implies (#[trigger] (a + b)[i]).order <= (#[trigger] (a + b)[j]).order by {
            if j < a.len() {
                assert((a + b)[i] == a[i] && (a + b)[j] == a[j]);
            } else if i < a.len() {
                assert((a + b)[i] == a[i] && (a + b)[j] == b[j - a.len()]);
            } else {
                assert((a + b)[i] == b[i - a.len()] && (a + b)[j] == b[j - a.len()]);
            }
        }
        assert forall|k: int| 0 <= k < (a + b).len() implies (#[trigger] (a + b)[k]).order < o by {
            if k < a.len() {
                assert((a + b)[k] == a[k]);
            } else {
                assert((a + b)[k] == b[k - a.len()]);
            }
        }
    }
}

/// The shaders kept from a prefix of `s` grow by the next shader when it has the order.
proof fn lemma_with_order_take(s: Seq<BufferShader>, o: int, i: int)
    requires
        0 <= i < s.len(),
    ensures
        with_order(s.take(i + 1), o) == if s[i].order == o {
            with_order(s.take(i), o).push(s[i])
        } else {
            with_order(s.take(i), o)
        },
{
    assert(s.take(i + 1).drop_last() =~= s.take(i));
}

impl Buffer {
    /// Adds a shader to the stack and sorts the stack by order. The sort is stable:
    /// shaders of the same order keep their relative position, and the new shader comes
    /// after those of its order already there.
    pub fn add_shader(&mut self, buffer_shader: BufferShader)
        ensures
            final(self).shader_stack@ == sort_by_order(old(self).shader_stack@.push(buffer_shader)),
            final(self).color@ == old(self).color@,
            final(self).width == old(self).width,
            final(self).height == old(self).height,
            final(self).is_drawing == old(self).is_drawing,
            final(self).offset_x == old(self).offset_x,
            final(self).offset_y == old(self).offset_y,
    {
        self.shader_stack.push(buffer_shader);
        let ghost all: Seq<BufferShader> = self.shader_stack@;
        let n: usize = self.shader_stack.len();
        let mut sorted: Vec<BufferShader> = Vec::new();
        let mut o: u16 = 0;
        while o < 256
            invariant
                all == self.shader_stack@,
                all == old(self).shader_stack@.push(buffer_shader),
                n == all.len(),
                o <= 256,
                sorted@ == orders_below(all, o as int),
                self.color@ == old(self).color@,
                self.width == old(self).width,
                self.height == old(self).height,
                self.is_drawing == old(self).is_drawing,
                self.offset_x == old(self).offset_x,
                self.offset_y == old(self).offset_y,
            decreases 256 - o,
        {
            let mut i: usize = 0;
            while i < n
                invariant
                    all == self.shader_stack@,
                    n == all.len(),
                    o < 256,
                    i <= n,
                    sorted@ == orders_below(all, o as int) + with_order(all.take(i as int), o as int),
                decreases n - i,
            {
                proof {
                    lemma_with_order_take(all, o as int, i as int);
                }
                let s: BufferShader = self.shader_stack[i];
                if s.order as u16 == o {
                    sorted.push(s);
                }
                proof {
                    let a = orders_below(all, o as int);
                    let b = with_order(all.take(i as int), o as int);
                    assert((a + b).push(s) =~= a + b.push(s));
                }
                i = i + 1;
            }
            proof {
                assert(all.take(n as int) =~= all);
            }
            o = o + 1;
        }
        self.shader_stack = sorted;
    }
}

/// After `add_shader` the stack is sorted by order.
pub proof fn law_add_shader_sorted(stack: Seq<BufferShader>, s: BufferShader)
    ensures
        is_sorted_by_order(sort_by_order(stack.push(s))),
{
    lemma_orders_below(stack.push(s), 256);
}

} // verus!
