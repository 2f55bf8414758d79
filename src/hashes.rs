use vstd::prelude::*;

use crate::error::TorrentError;

verus! {

/// The size in bytes of one SHA-1 piece hash.
pub const HASH_LEN: usize = 20;

/// The piece hashes of a torrent, in piece order.
#[derive(Debug, Clone, PartialEq, Eq)]
pub struct Hashes(pub Vec<[u8; 20]>);

/// The bytes of a sequence of hashes laid end to end.
pub open spec fn hash_bytes(s: Seq<[u8; 20]>) -> Seq<u8> {
    Seq::new(20 * s.len(), |k: int| s[k / 20]@[k % 20])
}

impl Hashes {
    /// Splits `buf` into consecutive 20-byte hashes.
    pub fn decode(buf: &[u8]) -> (r: Result<Hashes, TorrentError>)
        ensures
            r is Err <==> buf@.len() % 20 != 0,
            r is Err ==> r->Err_0 == TorrentError::InvalidLength,
            r is Ok ==> hash_bytes(r->Ok_0.0@) == buf@,
    {
        if buf.len() % HASH_LEN != 0 {
            return Err(TorrentError::InvalidLength);
        }
        let n: usize = buf.len() / HASH_LEN;
        let mut out: Vec<[u8; 20]> = Vec::new();
        let mut i: usize = 0;
        while i < n
            invariant
                n == buf@.len() / 20,
                buf@.len() % 20 == 0,
                buf@.len() <= usize::MAX,
                i <= n,
                out@.len() == i,
                forall|a: int, j: int| 0 <= a < i && 0 <= j < 20 ==> out@[a]@[j] == buf@[20 * a + j],
            decreases n - i,
        {
            let mut h: [u8; 20] = [0u8; 20];
            let mut j: usize = 0;
            while j < HASH_LEN
                invariant
                    j <= 20,
                    i < n,
                    n == buf@.len() / 20,
                    buf@.len() % 20 == 0,
                    buf@.len() <= usize::MAX,
                    forall|k: int| 0 <= k < j ==> h@[k] == buf@[20 * i + k],
                decreases 20 - j,
            {
                assert(20 * i + j < buf@.len()) by (nonlinear_arith)
                    requires
                        i < n,
                        j < 20,
                        n == buf@.len() / 20,
                        buf@.len() % 20 == 0,
                ;
                h[j] = buf[20 * i + j];
                j += 1;
            }
            out.push(h);
            i += 1;
        }
        let r = Hashes(out);
        assert(hash_bytes(r.0@) =~= buf@);
        Ok(r)
    }

    /// Lays the hashes end to end.
    pub fn encode(&self) -> (r: Vec<u8>)
        requires
            20 * self.0@.len() <= usize::MAX,
        ensures
            r@ == hash_bytes(self.0@),
    {
        let mut out: Vec<u8> = Vec::new();
        let mut i: usize = 0;
        while i < self.0.len()
            invariant
                i <= self.0@.len(),
                20 * self.0@.len() <= usize::MAX,
                out@ =~= hash_bytes(self.0@.take(i as int)),
            decreases self.0@.len() - i,
        {
            let h: &[u8; 20] = &self.0[i];
            let mut j: usize = 0;
            while j < HASH_LEN
                invariant
                    j <= 20,
                    i < self.0@.len(),
                    *h == self.0@[i as int],
                    out@.len() == 20 * i + j,
                    forall|k: int| 0 <= k < 20 * i ==> out@[k] == hash_bytes(self.0@.take(i as int))[k],
                    forall|k: int| 0 <= k < j ==> out@[20 * i + k] == h@[k],
                decreases 20 - j,
            {
                out.push(h[j]);
                j += 1;
            }
            assert(out@ =~= hash_bytes(self.0@.take(i + 1)));
            i += 1;
        }
        assert(self.0@.take(self.0@.len() as int) =~= self.0@);
        out
    }
}

/// Decoding the encoding of a sequence of hashes gives that sequence back:
/// the encoding is a whole number of hashes long, and no other sequence of
/// hashes has the same encoding.
pub proof fn lemma_hashes_round_trip(s: Seq<[u8; 20]>, t: Seq<[u8; 20]>)
    requires
        hash_bytes(t) == hash_bytes(s),
    ensures
        hash_bytes(s).len() % 20 == 0,
        t == s,
{
    assert(hash_bytes(t).len() == 20 * t.len());
    assert(hash_bytes(s).len() == 20 * s.len());
    assert(t.len() == s.len());
    assert forall|i: int| 0 <= i < s.len() implies t[i] == s[i] by {
        assert forall|j: int| 0 <= j < 20 implies t[i]@[j] == s[i]@[j] by {
            let k = 20 * i + j;
            assert(k / 20 == i && k % 20 == j) by (nonlinear_arith)
                requires
                    k == 20 * i + j,
                    0 <= j < 20,
            ;
            assert(0 <= k < 20 * s.len()) by (nonlinear_arith)
                requires
                    k == 20 * i + j,
                    0 <= j < 20,
                    0 <= i < s.len(),
            ;
            assert(hash_bytes(t)[k] == t[k / 20]@[k % 20]);
            assert(hash_bytes(s)[k] == s[k / 20]@[k % 20]);
        }
        assert(t[i]@ =~= s[i]@);
    }
    assert(t =~= s);
}

} // verus!
