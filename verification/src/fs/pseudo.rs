//! Read-only nodes with fixed contents.
use vstd::prelude::*;
use vstd::string::*;

verus! {

/// A node whose contents never change.
pub struct PseudoNode {
    pub content: Vec<u8>,
    pub ftype: u8,
}

impl PseudoNode {
    pub fn new(s: &str, ft: u8) -> (r: Self)
        ensures
            r.content@ == s.spec_bytes(),
            r.ftype == ft,
    {
        Self { content: vstd::slice::slice_to_vec(s.as_bytes()), ftype: ft }
    }

    /// Copies the contents from `off` on into the buffer, as far as both reach.
    pub fn read_at(&self, off: usize, buf: &mut [u8]) -> (n: usize)
        ensures
            n == (if off >= self.content@.len() {
                0
            } else if self.content@.len() - off < old(buf)@.len() {
                self.content@.len() - off
            } else {
                old(buf)@.len() as int
            }),
            final(buf)@ == if off >= self.content@.len() {
                old(buf)@
            } else {
                self.content@.skip(off as int).take(n as int) + old(buf)@.skip(n as int)
            },
    {
        let total = self.content.len();
        if off >= total {
            return 0;
        }
        let left: usize = total - off;
        let n: usize = if left < buf.len() {
            left
        } else {
            buf.len()
        };
        let ghost start = buf@;
        let ghost src = self.content@.skip(off as int);
        assert(buf@ =~= src.take(0) + start.skip(0));
        let mut i: usize = 0;
        while i < n
            invariant
                i <= n,
                n <= start.len(),
                off + n <= total == self.content@.len(),
                src == self.content@.skip(off as int),
                buf@.len() == start.len(),
                buf@ == src.take(i as int) + start.skip(i as int),
            decreases n - i,
        {
            buf[i] = self.content[off + i];
            i = i + 1;
            assert(buf@ =~= src.take(i as int) + start.skip(i as int));
        }
        n
    }

    /// Writing is not supported.
    pub fn write_at(&self, _off: usize, _buf: &[u8]) -> (r: Result<usize, &'static str>)
        ensures
            r == Err::<usize, &'static str>("nosup"),
    {
        Err("nosup")
    }

    pub fn metadata_sz(&self) -> (r: usize)
        ensures
            r == self.content@.len(),
    {
        self.content.len()
    }
}

pub fn read_as_vec(data: &[u8]) -> (r: Vec<u8>)
    ensures
        r@ == data@,
{
    vstd::slice::slice_to_vec(data)
}

} // verus!
