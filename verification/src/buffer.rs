use vstd::prelude::*;
use std::rc::Rc;

verus! {

/// Relies on `Rc::clone`: the clone is a handle to the very same shared
/// value, so it is equal to the original.
#[verifier::external_body]
fn rc_clone(rc: &Rc<Vec<u8>>) -> (r: Rc<Vec<u8>>)
    ensures
        r == *rc,
{
    rc.clone()
}

/// A reference-counted, position-tracking view over raw bytes.  Slicing
/// produces a new view sharing the underlying storage; no bytes are copied.
/// The position records where this view starts inside the whole message,
/// which is what alignment is measured from.
pub struct SharedData {
    buf: Rc<Vec<u8>>,
    start: usize,
    end: usize,
}

impl View for SharedData {
    type V = Seq<u8>;

    closed spec fn view(&self) -> Seq<u8> {
        self.buf@.subrange(self.start as int, self.end as int)
    }
}

impl SharedData {
    #[verifier::type_invariant]
    closed spec fn type_inv(&self) -> bool {
        self.start <= self.end <= self.buf@.len()
    }

    /// Offset of this view from the start of the enclosing message.
    pub closed spec fn spec_position(&self) -> nat {
        self.start as nat
    }

    /// Wraps a whole message buffer, with position 0.
    pub fn new(bytes: Vec<u8>) -> (r: SharedData)
        ensures
            r@ == bytes@,
            r.spec_position() == 0,
    {
        let end = bytes.len();
        SharedData { buf: Rc::new(bytes), start: 0, end }
    }

    pub fn len(&self) -> (n: usize)
        ensures
            n == self@.len(),
            self.spec_position() + n <= usize::MAX,
    {
        proof {
            use_type_invariant(self);
            vstd::std_specs::vec::axiom_spec_len(&*self.buf);
        }
        self.end - self.start
    }

    pub fn get(&self, i: usize) -> (c: u8)
        requires
            i < self@.len(),
        ensures
            c == self@[i as int],
    {
        proof {
            use_type_invariant(self);
        }
        self.buf[self.start + i]
    }

    /// Offset of this view from the start of the enclosing message.
    pub fn position(&self) -> (p: usize)
        ensures
            p == self.spec_position(),
    {
        self.start
    }

    /// The bytes of this view.
    pub fn bytes(&self) -> (r: &[u8])
        ensures
            r@ == self@,
    {
        proof {
            use_type_invariant(self);
        }
        vstd::slice::slice_subrange(self.buf.as_slice(), self.start, self.end)
    }

    /// A new view of the byte range `[from, to)` of this view, sharing the
    /// same storage; its position advances by `from`.
    pub fn subset(&self, from: usize, to: usize) -> (r: SharedData)
        requires
            from <= to <= self@.len(),
        ensures
            r@ == self@.subrange(from as int, to as int),
            r.spec_position() == self.spec_position() + from,
    {
        proof {
            use_type_invariant(self);
        }
        let r = SharedData { buf: rc_clone(&self.buf), start: self.start + from, end: self.start + to };
        proof {
            assert(r@ =~= self@.subrange(from as int, to as int));
        }
        r
    }

    /// A new view that drops the first `from` bytes of this view.
    pub fn tail(&self, from: usize) -> (r: SharedData)
        requires
            from <= self@.len(),
        ensures
            r@ == self@.subrange(from as int, self@.len() as int),
            r.spec_position() == self.spec_position() + from,
    {
        let n = self.len();
        self.subset(from, n)
    }
}

} // verus!
