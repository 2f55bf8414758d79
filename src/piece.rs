use vstd::prelude::*;

use core::cmp::Ordering;

use crate::error::TorrentError;
use crate::torrent::{piece_count_spec, piece_length_spec, Torrent};

verus! {

/// One fixed-position chunk of the content, with the peers that hold it.
pub struct Piece {
    peers: Vec<usize>,
    piece_i: usize,
    length: usize,
    hash: [u8; 20],
}

/// What a piece is, in mathematical terms.
pub struct PieceView {
    /// The identifiers of the peers that hold the piece, ascending.
    pub peers: Seq<usize>,
    pub index: usize,
    pub length: usize,
    pub hash: Seq<u8>,
}

impl View for Piece {
    type V = PieceView;

    closed spec fn view(&self) -> PieceView {
        PieceView { peers: self.peers@, index: self.piece_i, length: self.length, hash: self.hash@ }
    }
}

/// What every piece satisfies: its peers are listed once each in ascending
/// order, and its hash is 20 bytes long.
pub open spec fn piece_view_wf(v: PieceView) -> bool {
    &&& ascending(v.peers)
    &&& v.hash.len() == 20
}

/// Whether peer `q` of `avail` advertises piece `i`.
pub open spec fn holds(avail: Seq<Vec<bool>>, q: int, i: int) -> bool {
    0 <= i < avail[q]@.len() && avail[q]@[i]
}

/// The peers among the first `n` of `avail` that hold piece `i`, ascending.
pub open spec fn holders(avail: Seq<Vec<bool>>, i: int, n: int) -> Seq<usize>
    decreases n,
{
    if n <= 0 {
        Seq::empty()
    } else if holds(avail, n - 1, i) {
        holders(avail, i, n - 1).push((n - 1) as usize)
    } else {
        holders(avail, i, n - 1)
    }
}

/// The piece at index `i` of torrent `t`, given peer availability `avail`.
pub open spec fn piece_spec(t: Torrent, avail: Seq<Vec<bool>>, i: int) -> PieceView {
    PieceView {
        peers: holders(avail, i, avail.len() as int),
        index: i as usize,
        length: piece_length_spec(t.length_spec(), t.info.plength as int, i) as usize,
        hash: t.info.pieces.0@[i]@,
    }
}

/// The holders of a piece are exactly the peers that advertise it, each
/// once, in ascending order.
pub proof fn lemma_holders_are_the_advertisers(avail: Seq<Vec<bool>>, i: int, n: int)
    requires
        0 <= n <= avail.len(),
        n <= usize::MAX,
    ensures
        ascending(holders(avail, i, n)),
        forall|q: usize| #[trigger]
            holders(avail, i, n).contains(q) <==> (q < n && holds(avail, q as int, i)),
    decreases n,
{
    if n > 0 {
        lemma_holders_are_the_advertisers(avail, i, n - 1);
        let prev = holders(avail, i, n - 1);
        if holds(avail, n - 1, i) {
            let cur = prev.push((n - 1) as usize);
            assert forall|q: usize| #[trigger] cur.contains(q) <==> (q < n && holds(avail, q as int, i)) by {
                if q == n - 1 {
                    assert(cur[cur.len() - 1] == q);
                } else if cur.contains(q) {
                    let j = choose|j: int| 0 <= j < cur.len() && cur[j] == q;
                    assert(j != cur.len() - 1);
                    assert(prev[j] == q);
                    assert(prev.contains(q));
                } else if q < n && holds(avail, q as int, i) {
                    assert(prev.contains(q));
                    let j = choose|j: int| 0 <= j < prev.len() && prev[j] == q;
                    assert(cur[j] == q);
                }
            }
            assert forall|a: int, b: int| 0 <= a < b < cur.len() implies cur[a] < cur[b] by {
                if b == cur.len() - 1 {
                    assert(prev.contains(prev[a]));
                }
            }
        }
    }
}

/// `s` is strictly ascending.
pub open spec fn ascending(s: Seq<usize>) -> bool {
    forall|a: int, b: int| 0 <= a < b < s.len() ==> s[a] < s[b]
}

/// The three-way comparison of two integers.
pub open spec fn int_cmp(x: int, y: int) -> Ordering {
    if x < y {
        Ordering::Less
    } else if x > y {
        Ordering::Greater
    } else {
        Ordering::Equal
    }
}

/// `first`, unless it is `Equal`; then `next`.
pub open spec fn then_cmp(first: Ordering, next: Ordering) -> Ordering {
    if first is Equal {
        next
    } else {
        first
    }
}

/// The opposite ordering.
pub open spec fn reverse_cmp(o: Ordering) -> Ordering {
    match o {
        Ordering::Less => Ordering::Greater,
        Ordering::Greater => Ordering::Less,
        Ordering::Equal => Ordering::Equal,
    }
}

/// Lexicographic comparison; a proper prefix is smaller.
pub open spec fn lex_cmp(a: Seq<int>, b: Seq<int>) -> Ordering
    decreases a.len(),
{
    if a.len() == 0 {
        if b.len() == 0 {
            Ordering::Equal
        } else {
            Ordering::Less
        }
    } else if b.len() == 0 {
        Ordering::Greater
    } else if a[0] != b[0] {
        int_cmp(a[0], b[0])
    } else {
        lex_cmp(a.drop_first(), b.drop_first())
    }
}

/// The identifiers as integers.
pub open spec fn usize_ints(s: Seq<usize>) -> Seq<int> {
    s.map_values(|x: usize| x as int)
}

/// The bytes as integers.
pub open spec fn byte_ints(s: Seq<u8>) -> Seq<int> {
    s.map_values(|x: u8| x as int)
}

/// The selection order: fewer holders first, then the holder sets
/// lexicographically, then the hash bytes, then the length, then the index.
pub open spec fn cmp_spec(a: PieceView, b: PieceView) -> Ordering {
    then_cmp(
        int_cmp(a.peers.len() as int, b.peers.len() as int),
        then_cmp(
            lex_cmp(usize_ints(a.peers), usize_ints(b.peers)),
            then_cmp(
                lex_cmp(byte_ints(a.hash), byte_ints(b.hash)),
                then_cmp(int_cmp(a.length as int, b.length as int), int_cmp(a.index as int, b.index as int)),
            ),
        ),
    )
}

proof fn lemma_lex_cmp_step(a: Seq<int>, b: Seq<int>, k: int)
    requires
        0 <= k < a.len(),
        k < b.len(),
        a[k] == b[k],
    ensures
        lex_cmp(a.skip(k), b.skip(k)) == lex_cmp(a.skip(k + 1), b.skip(k + 1)),
{
    assert(a.skip(k).drop_first() =~= a.skip(k + 1));
    assert(b.skip(k).drop_first() =~= b.skip(k + 1));
}

/// Swapping the arguments of a lexicographic comparison reverses it, and
/// only equal sequences compare `Equal`.
pub proof fn lemma_lex_cmp_antisymmetric(a: Seq<int>, b: Seq<int>)
    ensures
        lex_cmp(b, a) == reverse_cmp(lex_cmp(a, b)),
        lex_cmp(a, b) is Equal <==> a == b,
    decreases a.len(),
{
    if a.len() > 0 && b.len() > 0 {
        lemma_lex_cmp_antisymmetric(a.drop_first(), b.drop_first());
        if a[0] == b[0] && a.drop_first() == b.drop_first() {
            assert(a =~= seq![a[0]] + a.drop_first());
            assert(b =~= seq![b[0]] + b.drop_first());
        }
    }
    if a.len() == 0 && b.len() == 0 {
        assert(a =~= b);
    }
}

/// Lexicographic comparison is transitive.
pub proof fn lemma_lex_cmp_transitive(a: Seq<int>, b: Seq<int>, c: Seq<int>)
    requires
        lex_cmp(a, b) is Less,
        lex_cmp(b, c) is Less,
    ensures
        lex_cmp(a, c) is Less,
    decreases a.len(),
{
    if a.len() > 0 && b.len() > 0 && c.len() > 0 && a[0] == b[0] && b[0] == c[0] {
        lemma_lex_cmp_transitive(a.drop_first(), b.drop_first(), c.drop_first());
    }
}

proof fn lemma_ints_injective(a: Seq<usize>, b: Seq<usize>, x: Seq<u8>, y: Seq<u8>)
    ensures
        usize_ints(a) == usize_ints(b) ==> a == b,
        byte_ints(x) == byte_ints(y) ==> x == y,
{
    if usize_ints(a) == usize_ints(b) {
        assert(a.len() == usize_ints(a).len());
        assert forall|i: int| 0 <= i < a.len() implies a[i] == b[i] by {
            assert(usize_ints(a)[i] == usize_ints(b)[i]);
        }
        assert(a =~= b);
    }
    if byte_ints(x) == byte_ints(y) {
        assert(x.len() == byte_ints(x).len());
        assert forall|i: int| 0 <= i < x.len() implies x[i] == y[i] by {
            assert(byte_ints(x)[i] == byte_ints(y)[i]);
        }
        assert(x =~= y);
    }
}

/// The selection order is antisymmetric and strict: swapping two pieces
/// reverses their comparison, and only identical pieces compare `Equal`.
pub proof fn lemma_selection_order_antisymmetric(a: PieceView, b: PieceView)
    ensures
        cmp_spec(b, a) == reverse_cmp(cmp_spec(a, b)),
        cmp_spec(a, b) is Equal <==> a == b,
{
    lemma_lex_cmp_antisymmetric(usize_ints(a.peers), usize_ints(b.peers));
    lemma_lex_cmp_antisymmetric(byte_ints(a.hash), byte_ints(b.hash));
    lemma_ints_injective(a.peers, b.peers, a.hash, b.hash);
}

/// The selection order is transitive.
pub proof fn lemma_selection_order_transitive(a: PieceView, b: PieceView, c: PieceView)
    requires
        cmp_spec(a, b) is Less,
        cmp_spec(b, c) is Less,
    ensures
        cmp_spec(a, c) is Less,
{
    lemma_selection_order_antisymmetric(a, b);
    lemma_selection_order_antisymmetric(b, c);
    lemma_selection_order_antisymmetric(a, c);
    lemma_ints_injective(a.peers, b.peers, a.hash, b.hash);
    lemma_ints_injective(b.peers, c.peers, b.hash, c.hash);
    let (pa, pb, pc) = (usize_ints(a.peers), usize_ints(b.peers), usize_ints(c.peers));
    let (ha, hb, hc) = (byte_ints(a.hash), byte_ints(b.hash), byte_ints(c.hash));
    lemma_lex_cmp_antisymmetric(pa, pb);
    lemma_lex_cmp_antisymmetric(pb, pc);
    lemma_lex_cmp_antisymmetric(pa, pc);
    lemma_lex_cmp_antisymmetric(ha, hb);
    lemma_lex_cmp_antisymmetric(hb, hc);
    lemma_lex_cmp_antisymmetric(ha, hc);
    if lex_cmp(pa, pb) is Less && lex_cmp(pb, pc) is Less {
        lemma_lex_cmp_transitive(pa, pb, pc);
    }
    if lex_cmp(ha, hb) is Less && lex_cmp(hb, hc) is Less {
        lemma_lex_cmp_transitive(ha, hb, hc);
    }
}

/// Two pieces held by the same peers are ordered by their hash bytes, then
/// by their length, then by their index; pieces with distinct indices never
/// tie.
pub proof fn lemma_tie_break(a: PieceView, b: PieceView)
    requires
        a.peers == b.peers,
    ensures
        cmp_spec(a, b) == then_cmp(
            lex_cmp(byte_ints(a.hash), byte_ints(b.hash)),
            then_cmp(int_cmp(a.length as int, b.length as int), int_cmp(a.index as int, b.index as int)),
        ),
        a.index != b.index ==> !(cmp_spec(a, b) is Equal),
{
    lemma_lex_cmp_antisymmetric(usize_ints(a.peers), usize_ints(b.peers));
    lemma_selection_order_antisymmetric(a, b);
}

/// Compares two sequences of `usize` lexicographically.
fn lex_cmp_usize(a: &Vec<usize>, b: &Vec<usize>) -> (r: Ordering)
    ensures
        r == lex_cmp(usize_ints(a@), usize_ints(b@)),
{
    let ghost sa = usize_ints(a@);
    let ghost sb = usize_ints(b@);
    let mut k: usize = 0;
    assert(sa.skip(0) =~= sa);
    assert(sb.skip(0) =~= sb);
    while k < a.len() && k < b.len()
        invariant
            k <= a@.len(),
            k <= b@.len(),
            sa == usize_ints(a@),
            sb == usize_ints(b@),
            lex_cmp(sa, sb) == lex_cmp(sa.skip(k as int), sb.skip(k as int)),
        decreases a@.len() - k,
    {
        if a[k] < b[k] {
            return Ordering::Less;
        }
        if a[k] > b[k] {
            return Ordering::Greater;
        }
        proof {
            lemma_lex_cmp_step(sa, sb, k as int);
        }
        k += 1;
    }
    if k < b.len() {
        Ordering::Less
    } else if k < a.len() {
        Ordering::Greater
    } else {
        Ordering::Equal
    }
}

/// Compares two hashes lexicographically.
fn lex_cmp_hash(a: &[u8; 20], b: &[u8; 20]) -> (r: Ordering)
    ensures
        r == lex_cmp(byte_ints(a@), byte_ints(b@)),
{
    let ghost sa = byte_ints(a@);
    let ghost sb = byte_ints(b@);
    let mut k: usize = 0;
    assert(sa.skip(0) =~= sa);
    assert(sb.skip(0) =~= sb);
    while k < 20
        invariant
            k <= 20,
            sa == byte_ints(a@),
            sb == byte_ints(b@),
            lex_cmp(sa, sb) == lex_cmp(sa.skip(k as int), sb.skip(k as int)),
        decreases 20 - k,
    {
        if a[k] < b[k] {
            return Ordering::Less;
        }
        if a[k] > b[k] {
            return Ordering::Greater;
        }
        proof {
            lemma_lex_cmp_step(sa, sb, k as int);
        }
        k += 1;
    }
    Ordering::Equal
}

fn usize_cmp(x: usize, y: usize) -> (r: Ordering)
    ensures
        r == int_cmp(x as int, y as int),
{
    if x < y {
        Ordering::Less
    } else if x > y {
        Ordering::Greater
    } else {
        Ordering::Equal
    }
}

/// Every piece before the last one starts inside the content.
proof fn lemma_piece_starts_inside(total: int, plength: int, i: int)
    requires
        0 <= total,
        0 < plength,
        0 <= i < piece_count_spec(total, plength),
    ensures
        plength * i < total,
{
    let q = total / plength;
    let m = total % plength;
    assert(total == plength * q + m && 0 <= m < plength) by {
        vstd::arithmetic::div_mod::lemma_fundamental_div_mod(total, plength);
    }
    if m == 0 {
        assert(plength * i < total) by (nonlinear_arith)
            requires
                i < q,
                total == plength * q,
                0 < plength,
        ;
    } else {
        assert(plength * i < total) by (nonlinear_arith)
            requires
                i <= q,
                total == plength * q + m,
                0 < m,
                0 < plength,
        ;
    }
}

impl Piece {
    #[verifier::type_invariant]
    spec fn inv(&self) -> bool {
        piece_view_wf(self@)
    }

    /// Builds piece `piece_i` of `t`. Its peers are the positions in `peers`
    /// of the peers whose bitfield marks the piece, ascending.
    pub fn new(piece_i: usize, t: &Torrent, peers: &[Vec<bool>]) -> (r: Piece)
        requires
            t.wf(),
            piece_i < t.info.pieces.0@.len(),
            t.info.plength * piece_i < t.length_spec(),
        ensures
            r@ == piece_spec(*t, peers@, piece_i as int),
            piece_view_wf(r@),
            forall|q: usize| #[trigger]
                r@.peers.contains(q) <==> (q < peers@.len() && holds(peers@, q as int, piece_i as int)),
    {
        let piece_hash: [u8; 20] = t.info.pieces.0[piece_i];
        let plength: usize = t.info.plength;
        let total: usize = t.length();
        let rest: usize = total - plength * piece_i;
        let piece_size: usize = if plength < rest {
            plength
        } else {
            rest
        };
        let mut holding: Vec<usize> = Vec::new();
        let mut q: usize = 0;
        while q < peers.len()
            invariant
                q <= peers@.len(),
                holding@ == holders(peers@, piece_i as int, q as int),
            decreases peers@.len() - q,
        {
            let avail: &Vec<bool> = &peers[q];
            if piece_i < avail.len() && avail[piece_i] {
                holding.push(q);
            }
            q += 1;
        }
        proof {
            lemma_holders_are_the_advertisers(peers@, piece_i as int, peers@.len() as int);
        }
        Piece { peers: holding, piece_i, length: piece_size, hash: piece_hash }
    }

    /// The identifiers of the peers that hold this piece, ascending.
    pub fn peers(&self) -> (r: &Vec<usize>)
        ensures
            r@ == self@.peers,
            ascending(r@),
    {
        proof {
            use_type_invariant(self);
        }
        &self.peers
    }

    /// The position of this piece in the content.
    pub fn index(&self) -> (r: usize)
        ensures
            r == self@.index,
    {
        self.piece_i
    }

    /// The size of this piece in bytes.
    pub fn length(&self) -> (r: usize)
        ensures
            r == self@.length,
    {
        self.length
    }

    /// The reference SHA-1 hash of this piece.
    pub fn hash(&self) -> (r: &[u8])
        ensures
            r@ == self@.hash,
            r@.len() == 20,
    {
        self.hash.as_slice()
    }

    /// The selection order between two pieces; `Less` means `self` is
    /// requested first. Both pieces list their peers in ascending order, so
    /// the second step compares the peer sets element by element.
    pub fn cmp(&self, other: &Piece) -> (r: Ordering)
        ensures
            r == cmp_spec(self@, other@),
            piece_view_wf(self@),
            piece_view_wf(other@),
    {
        proof {
            use_type_invariant(self);
            use_type_invariant(other);
        }
        let c = usize_cmp(self.peers.len(), other.peers.len());
        match c {
            Ordering::Equal => {},
            _ => return c,
        }
        let c = lex_cmp_usize(&self.peers, &other.peers);
        match c {
            Ordering::Equal => {},
            _ => return c,
        }
        let c = lex_cmp_hash(&self.hash, &other.hash);
        match c {
            Ordering::Equal => {},
            _ => return c,
        }
        let c = usize_cmp(self.length, other.length);
        match c {
            Ordering::Equal => {},
            _ => return c,
        }
        usize_cmp(self.piece_i, other.piece_i)
    }
}

impl PartialEq for Piece {
    fn eq(&self, other: &Piece) -> (r: bool) {
        proof {
            lemma_selection_order_antisymmetric(self@, other@);
        }
        match self.cmp(other) {
            Ordering::Equal => true,
            _ => false,
        }
    }
}

impl vstd::std_specs::cmp::PartialEqSpecImpl for Piece {
    open spec fn obeys_eq_spec() -> bool {
        true
    }

    open spec fn eq_spec(&self, other: &Piece) -> bool {
        self@ == other@
    }
}

impl PartialOrd for Piece {
    fn partial_cmp(&self, other: &Piece) -> (r: Option<Ordering>) {
        Some(self.cmp(other))
    }
}

impl vstd::std_specs::cmp::PartialOrdSpecImpl for Piece {
    open spec fn obeys_partial_cmp_spec() -> bool {
        true
    }

    open spec fn partial_cmp_spec(&self, other: &Piece) -> Option<Ordering> {
        Some(cmp_spec(self@, other@))
    }
}

/// Builds the catalog of `t`: one piece per index, in index order, each
/// with the peers of `peers` that hold it. Fails when the number of piece
/// hashes differs from the number of pieces that the total length takes.
pub fn build(t: &Torrent, peers: &[Vec<bool>]) -> (r: Result<Vec<Piece>, TorrentError>)
    requires
        t.wf(),
    ensures
        r is Err <==> t.info.pieces.0@.len() != t.piece_count(),
        r is Err ==> r->Err_0 == TorrentError::IndexMismatch,
        t.info.pieces.0@.len() == t.piece_count() ==> r is Ok,
        r is Ok ==> r->Ok_0@.len() == t.piece_count(),
        r is Ok ==> forall|k: int|
            0 <= k < t.piece_count() ==> #[trigger] r->Ok_0@[k]@ == piece_spec(*t, peers@, k),
{
    let total: usize = t.length();
    let plength: usize = t.info.plength;
    let count: usize = t.num_pieces();
    if t.info.pieces.0.len() != count {
        return Err(TorrentError::IndexMismatch);
    }
    let mut out: Vec<Piece> = Vec::new();
    let mut i: usize = 0;
    while i < count
        invariant
            t.wf(),
            total == t.length_spec(),
            plength == t.info.plength,
            count == t.piece_count(),
            count == t.info.pieces.0@.len(),
            i <= count,
            out@.len() == i,
            forall|k: int| 0 <= k < i ==> #[trigger] out@[k]@ == piece_spec(*t, peers@, k),
        decreases count - i,
    {
        proof {
            lemma_piece_starts_inside(total as int, plength as int, i as int);
        }
        let p = Piece::new(i, t, peers);
        out.push(p);
        i += 1;
    }
    Ok(out)
}

} // verus!
