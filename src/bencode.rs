use vstd::prelude::*;

verus! {

/// Whether `c` is an ASCII decimal digit.
pub open spec fn is_digit(c: u8) -> bool {
    48 <= c <= 57
}

/// The first position at or after `p` that does not hold a digit.
pub open spec fn digits_end(b: Seq<u8>, p: int) -> int
    decreases b.len() - p,
{
    if 0 <= p < b.len() && is_digit(b[p]) {
        digits_end(b, p + 1)
    } else {
        p
    }
}

/// The number that a run of decimal digits spells.
pub open spec fn dec_value(s: Seq<u8>) -> int
    decreases s.len(),
{
    if s.len() == 0 {
        0
    } else {
        dec_value(s.drop_last()) * 10 + (s.last() - 48)
    }
}

/// For a byte string whose header starts at `p` (`<len>:`), the span of
/// its contents.
pub open spec fn str_span(b: Seq<u8>, p: int) -> Option<(int, int)> {
    let d = digits_end(b, p);
    if 0 <= p && d > p && d < b.len() && b[d] == 58 && d + 1 + dec_value(b.subrange(p, d)) <= b.len() {
        Some((d + 1, d + 1 + dec_value(b.subrange(p, d))))
    } else {
        None
    }
}

/// For an integer that starts at `p` (`i`, an optional `-`, digits, `e`),
/// the position just after it.
pub open spec fn int_end(b: Seq<u8>, p: int) -> Option<int> {
    let s = if p + 1 < b.len() && b[p + 1] == 45 {
        p + 2
    } else {
        p + 1
    };
    let d = digits_end(b, s);
    if 0 <= p < b.len() && b[p] == 105 && d > s && d < b.len() && b[d] == 101 {
        Some(d + 1)
    } else {
        None
    }
}

/// For a non-negative integer that starts at `p`, its value and the
/// position just after it, when the value fits in a `usize`.
pub open spec fn uint_at(b: Seq<u8>, p: int) -> Option<(int, int)> {
    let d = digits_end(b, p + 1);
    let v = dec_value(b.subrange(p + 1, d));
    if 0 <= p < b.len() && b[p] == 105 && d > p + 1 && d < b.len() && b[d] == 101 && v <= usize::MAX {
        Some((v, d + 1))
    } else {
        None
    }
}

/// The value of the non-negative integer at `p`.
pub open spec fn uint_value(b: Seq<u8>, p: int) -> int {
    let v = uint_at(b, p)->0;
    v.0
}

/// For a bencoded value that starts at `p`, the position just after it.
pub open spec fn value_end(b: Seq<u8>, p: int) -> Option<int>
    decreases b.len() - p, 0int,
{
    if p < 0 || p >= b.len() {
        None
    } else if b[p] == 105 {
        int_end(b, p)
    } else if b[p] == 108 {
        items_end(b, p + 1)
    } else if b[p] == 100 {
        entries_end(b, p + 1)
    } else {
        match str_span(b, p) {
            Some(span) => Some(span.1),
            None => None,
        }
    }
}

/// For the items of a list that start at `p`, the position just after the
/// closing `e`.
pub open spec fn items_end(b: Seq<u8>, p: int) -> Option<int>
    decreases b.len() - p, 1int,
{
    if p < 0 || p >= b.len() {
        None
    } else if b[p] == 101 {
        Some(p + 1)
    } else {
        match value_end(b, p) {
            Some(q) => if p < q <= b.len() {
                items_end(b, q)
            } else {
                None
            },
            None => None,
        }
    }
}

/// For the entries of a dictionary that start at `p`, the position just
/// after the closing `e`.
pub open spec fn entries_end(b: Seq<u8>, p: int) -> Option<int>
    decreases b.len() - p, 1int,
{
    if p < 0 || p >= b.len() {
        None
    } else if b[p] == 101 {
        Some(p + 1)
    } else {
        match str_span(b, p) {
            Some(key) => if p < key.1 <= b.len() {
                match value_end(b, key.1) {
                    Some(q) => if key.1 < q <= b.len() {
                        entries_end(b, q)
                    } else {
                        None
                    },
                    None => None,
                }
            } else {
                None
            },
            None => None,
        }
    }
}

/// In the entries that start at `p`, the position of the value of the
/// first entry whose key is `key`.
pub open spec fn lookup(b: Seq<u8>, p: int, key: Seq<u8>) -> Option<int>
    decreases b.len() - p,
{
    if p < 0 || p >= b.len() || b[p] == 101 {
        None
    } else {
        match str_span(b, p) {
            Some(k) => if k.1 <= p || k.1 > b.len() || k.0 > k.1 {
                None
            } else if b.subrange(k.0, k.1) == key {
                Some(k.1)
            } else {
                match value_end(b, k.1) {
                    Some(q) => if k.1 < q <= b.len() {
                        lookup(b, q, key)
                    } else {
                        None
                    },
                    None => None,
                }
            },
            None => None,
        }
    }
}

/// In the items of a list that start at `p`, the start of item `k`; for
/// `k` equal to the number of items, the position of the closing `e`.
pub open spec fn item_pos(b: Seq<u8>, p: int, k: nat) -> Option<int>
    decreases k,
{
    if k == 0 {
        Some(p)
    } else {
        match item_pos(b, p, (k - 1) as nat) {
            Some(q) => if 0 <= q < b.len() && b[q] != 101 {
                value_end(b, q)
            } else {
                None
            },
            None => None,
        }
    }
}

/// The list whose items start at `p` has exactly `n` items.
pub open spec fn list_len_is(b: Seq<u8>, p: int, n: nat) -> bool {
    match item_pos(b, p, n) {
        Some(q) => 0 <= q < b.len() && b[q] == 101,
        None => false,
    }
}

/// An optional pair of `usize` as a pair of `int`.
pub open spec fn opt_pair(o: Option<(usize, usize)>) -> Option<(int, int)> {
    match o {
        Some(v) => Some((v.0 as int, v.1 as int)),
        None => None,
    }
}

/// An `Option<usize>` as an `Option<int>`.
pub open spec fn opt_int(o: Option<usize>) -> Option<int> {
    match o {
        Some(v) => Some(v as int),
        None => None,
    }
}

proof fn lemma_digits_end_bounds(b: Seq<u8>, p: int)
    requires
        0 <= p <= b.len(),
    ensures
        p <= digits_end(b, p) <= b.len(),
        forall|i: int| p <= i < digits_end(b, p) ==> is_digit(b[i]),
    decreases b.len() - p,
{
    if p < b.len() && is_digit(b[p]) {
        lemma_digits_end_bounds(b, p + 1);
    }
}

/// Finds the first position at or after `p` that does not hold a digit.
fn scan_digits(b: &[u8], p: usize) -> (r: usize)
    requires
        p <= b@.len(),
    ensures
        r == digits_end(b@, p as int),
        p <= r <= b@.len(),
        forall|i: int| p <= i < r ==> is_digit(b@[i]),
{
    proof {
        lemma_digits_end_bounds(b@, p as int);
    }
    let mut i: usize = p;
    while i < b.len() && 48 <= b[i] && b[i] <= 57
        invariant
            p <= i <= b@.len(),
            digits_end(b@, i as int) == digits_end(b@, p as int),
        decreases b@.len() - i,
    {
        i += 1;
    }
    i
}

proof fn lemma_dec_value_prefix(s: Seq<u8>, j: int)
    requires
        0 <= j <= s.len(),
        forall|i: int| 0 <= i < s.len() ==> is_digit(s[i]),
    ensures
        0 <= dec_value(s.take(j)) <= dec_value(s),
    decreases s.len(),
{
    if j < s.len() {
        assert(s.drop_last().take(j) =~= s.take(j));
        lemma_dec_value_prefix(s.drop_last(), j);
    } else {
        assert(s.take(j) =~= s);
        if s.len() > 0 {
            lemma_dec_value_prefix(s.drop_last(), 0);
        }
    }
}

/// The value of the digits in `b[start..end]`, when it is at most `bound`.
fn read_decimal(b: &[u8], start: usize, end: usize, bound: usize) -> (r: Option<usize>)
    requires
        start <= end <= b@.len(),
        forall|i: int| start <= i < end ==> is_digit(b@[i]),
    ensures
        r is Some <==> dec_value(b@.subrange(start as int, end as int)) <= bound,
        r matches Some(v) ==> v == dec_value(b@.subrange(start as int, end as int)),
{
    let ghost s = b@.subrange(start as int, end as int);
    let mut v: usize = 0;
    let mut i: usize = start;
    assert(s.take(0) =~= Seq::<u8>::empty());
    while i < end
        invariant
            start <= i <= end,
            end <= b@.len(),
            s == b@.subrange(start as int, end as int),
            forall|k: int| 0 <= k < s.len() ==> is_digit(s[k]),
            forall|k: int| start <= k < end ==> is_digit(b@[k]),
            v == dec_value(s.take(i - start)),
            v <= bound,
        decreases end - i,
    {
        let d: usize = (b[i] - 48) as usize;
        proof {
            assert(s.take(i - start + 1).drop_last() =~= s.take(i - start));
            lemma_dec_value_prefix(s, i - start + 1);
        }
        if d > bound || v > (bound - d) / 10 {
            proof {
                if d <= bound {
                    assert(v * 10 + d > bound) by (nonlinear_arith)
                        requires
                            v > (bound - d) / 10,
                            d <= bound,
                    ;
                }
            }
            return None;
        }
        proof {
            assert(v * 10 + d <= bound) by (nonlinear_arith)
                requires
                    v <= (bound - d) / 10,
                    d <= bound,
            ;
        }
        v = v * 10 + d;
        i += 1;
    }
    assert(s.take(end - start) =~= s);
    Some(v)
}

/// Reads the header of a byte string at `p`; gives the span of its contents.
pub fn read_str_span(b: &[u8], p: usize) -> (r: Option<(usize, usize)>)
    ensures
        opt_pair(r) == str_span(b@, p as int),
        r matches Some(span) ==> span.0 <= span.1 <= b@.len(),
{
    let len: usize = b.len();
    if p > b.len() {
        return None;
    }
    let d: usize = scan_digits(b, p);
    if d == p || d >= b.len() || b[d] != 58 {
        return None;
    }
    match read_decimal(b, p, d, b.len() - d - 1) {
        Some(n) => Some((d + 1, d + 1 + n)),
        None => None,
    }
}

/// Reads a non-negative integer at `p`; gives its value and the position
/// just after it.
pub fn read_uint(b: &[u8], p: usize) -> (r: Option<(usize, usize)>)
    ensures
        opt_pair(r) == uint_at(b@, p as int),
{
    let len: usize = b.len();
    if p >= b.len() || b[p] != 105 {
        return None;
    }
    let d: usize = scan_digits(b, p + 1);
    if d == p + 1 || d >= b.len() || b[d] != 101 {
        return None;
    }
    match read_decimal(b, p + 1, d, usize::MAX) {
        Some(v) => Some((v, d + 1)),
        None => None,
    }
}

fn skip_int(b: &[u8], p: usize) -> (r: Option<usize>)
    requires
        p < b@.len(),
        b@[p as int] == 105,
    ensures
        opt_int(r) == int_end(b@, p as int),
{
    let len: usize = b.len();
    let s: usize = if p + 1 < b.len() && b[p + 1] == 45 {
        p + 2
    } else {
        p + 1
    };
    if s > b.len() {
        return None;
    }
    let d: usize = scan_digits(b, s);
    if d > s && d < b.len() && b[d] == 101 {
        Some(d + 1)
    } else {
        None
    }
}

/// Finds the end of the bencoded value that starts at `p`.
pub fn skip_value(b: &[u8], p: usize) -> (r: Option<usize>)
    ensures
        opt_int(r) == value_end(b@, p as int),
    decreases b@.len() - p, 0int,
{
    if p >= b.len() {
        None
    } else if b[p] == 105 {
        skip_int(b, p)
    } else if b[p] == 108 {
        skip_items(b, p + 1)
    } else if b[p] == 100 {
        skip_entries(b, p + 1)
    } else {
        match read_str_span(b, p) {
            Some(span) => Some(span.1),
            None => None,
        }
    }
}

fn skip_items(b: &[u8], p: usize) -> (r: Option<usize>)
    ensures
        opt_int(r) == items_end(b@, p as int),
    decreases b@.len() - p, 1int,
{
    let mut q: usize = p;
    while q < b.len() && b[q] != 101
        invariant
            p <= q,
            items_end(b@, p as int) == items_end(b@, q as int),
        decreases b@.len() - q,
    {
        match skip_value(b, q) {
            Some(next) => {
                if next <= q || next > b.len() {
                    return None;
                }
                q = next;
            },
            None => {
                return None;
            },
        }
    }
    if q >= b.len() {
        None
    } else {
        Some(q + 1)
    }
}

fn skip_entries(b: &[u8], p: usize) -> (r: Option<usize>)
    ensures
        opt_int(r) == entries_end(b@, p as int),
    decreases b@.len() - p, 1int,
{
    let mut q: usize = p;
    while q < b.len() && b[q] != 101
        invariant
            p <= q,
            entries_end(b@, p as int) == entries_end(b@, q as int),
        decreases b@.len() - q,
    {
        let key_end: usize = match read_str_span(b, q) {
            Some(key) => key.1,
            None => {
                return None;
            },
        };
        if key_end <= q || key_end > b.len() {
            return None;
        }
        match skip_value(b, key_end) {
            Some(next) => {
                if next <= key_end || next > b.len() {
                    return None;
                }
                q = next;
            },
            None => {
                return None;
            },
        }
    }
    if q >= b.len() {
        None
    } else {
        Some(q + 1)
    }
}

/// Whether `b[start..end]` equals `key`.
fn span_equals(b: &[u8], start: usize, end: usize, key: &[u8]) -> (r: bool)
    requires
        start <= end <= b@.len(),
    ensures
        r == (b@.subrange(start as int, end as int) == key@),
{
    if end - start != key.len() {
        return false;
    }
    let mut i: usize = 0;
    while i < key.len()
        invariant
            end - start == key@.len(),
            start <= end <= b@.len(),
            i <= key@.len(),
            forall|k: int| 0 <= k < i ==> b@[start + k] == key@[k],
        decreases key@.len() - i,
    {
        if b[start + i] != key[i] {
            assert(b@.subrange(start as int, end as int)[i as int] != key@[i as int]);
            return false;
        }
        i += 1;
    }
    assert(b@.subrange(start as int, end as int) =~= key@);
    true
}

/// In the dictionary entries that start at `p`, finds the value of the
/// first entry whose key is `key`.
pub fn find_key(b: &[u8], p: usize, key: &[u8]) -> (r: Option<usize>)
    ensures
        opt_int(r) == lookup(b@, p as int, key@),
{
    let mut q: usize = p;
    while q < b.len() && b[q] != 101
        invariant
            lookup(b@, p as int, key@) == lookup(b@, q as int, key@),
        decreases b@.len() - q,
    {
        let (key_start, key_end) = match read_str_span(b, q) {
            Some(k) => k,
            None => {
                return None;
            },
        };
        if key_end <= q || key_end > b.len() || key_start > key_end {
            return None;
        }
        if span_equals(b, key_start, key_end, key) {
            return Some(key_end);
        }
        match skip_value(b, key_end) {
            Some(next) => {
                if next <= key_end || next > b.len() {
                    return None;
                }
                q = next;
            },
            None => {
                return None;
            },
        }
    }
    None
}

/// Once an item position is missing, every later one is missing too.
pub proof fn lemma_item_pos_none_after(b: Seq<u8>, p: int, m: nat, j: nat)
    requires
        item_pos(b, p, m) is None,
    ensures
        item_pos(b, p, m + j) is None,
    decreases j,
{
    if j > 0 {
        lemma_item_pos_none_after(b, p, m, (j - 1) as nat);
        assert(item_pos(b, p, (m + j) as nat) == match item_pos(b, p, (m + j - 1) as nat) {
            Some(q) => if 0 <= q < b.len() && b[q] != 101 {
                value_end(b, q)
            } else {
                None
            },
            None => None,
        });
    }
}

/// A list has one length.
pub proof fn lemma_list_len_unique(b: Seq<u8>, p: int, n1: nat, n2: nat)
    requires
        list_len_is(b, p, n1),
        list_len_is(b, p, n2),
    ensures
        n1 == n2,
{
    if n1 < n2 {
        assert(item_pos(b, p, n1 + 1) is None);
        lemma_item_pos_none_after(b, p, n1 + 1, (n2 - n1 - 1) as nat);
    } else if n2 < n1 {
        assert(item_pos(b, p, n2 + 1) is None);
        lemma_item_pos_none_after(b, p, n2 + 1, (n1 - n2 - 1) as nat);
    }
}

/// A list of `n` items has a start for each of its first `n` items, each
/// inside the bytes and not the closing `e`.
pub proof fn lemma_list_items_exist(b: Seq<u8>, p: int, n: nat, k: nat)
    requires
        list_len_is(b, p, n),
        k < n,
    ensures
        item_pos(b, p, k) is Some,
        0 <= item_pos(b, p, k)->0 < b.len(),
        b[item_pos(b, p, k)->0] != 101,
        item_pos(b, p, k + 1) is Some,
{
    if item_pos(b, p, k + 1) is None {
        lemma_item_pos_none_after(b, p, k + 1, (n - k - 1) as nat);
    }
}

proof fn lemma_str_span_bounds(b: Seq<u8>, p: int)
    requires
        str_span(b, p) is Some,
    ensures
        ({
            let span = str_span(b, p)->0;
            p < span.0 <= span.1 <= b.len()
        }),
{
    let d = digits_end(b, p);
    lemma_digits_end_bounds(b, p);
    let s = b.subrange(p, d);
    assert forall|i: int| 0 <= i < s.len() implies is_digit(s[i]) by {
        assert(s[i] == b[p + i]);
    }
    lemma_dec_value_prefix(s, 0);
}

/// A value that parses ends after its start and within the bytes.
pub proof fn lemma_value_end_bounds(b: Seq<u8>, p: int)
    requires
        value_end(b, p) is Some,
    ensures
        p < value_end(b, p)->0 <= b.len(),
    decreases b.len() - p, 0int,
{
    if b[p] == 105 {
        let s = if p + 1 < b.len() && b[p + 1] == 45 {
            p + 2
        } else {
            p + 1
        };
        if s <= b.len() {
            lemma_digits_end_bounds(b, s);
        }
    } else if b[p] == 108 {
        lemma_items_end_bounds(b, p + 1);
    } else if b[p] == 100 {
        lemma_entries_end_bounds(b, p + 1);
    } else {
        lemma_str_span_bounds(b, p);
    }
}

proof fn lemma_items_end_bounds(b: Seq<u8>, p: int)
    requires
        items_end(b, p) is Some,
    ensures
        p < items_end(b, p)->0 <= b.len(),
    decreases b.len() - p, 1int,
{
    if b[p] != 101 {
        let q = value_end(b, p)->0;
        lemma_items_end_bounds(b, q);
    }
}

proof fn lemma_entries_end_bounds(b: Seq<u8>, p: int)
    requires
        entries_end(b, p) is Some,
    ensures
        p < entries_end(b, p)->0 <= b.len(),
    decreases b.len() - p, 1int,
{
    if b[p] != 101 {
        let span = str_span(b, p)->0;
        let k = span.1;
        let q = value_end(b, k)->0;
        lemma_entries_end_bounds(b, q);
    }
}

/// In a list of `n` items, only the first `n + 1` item positions exist.
pub proof fn lemma_item_pos_within(b: Seq<u8>, p: int, n: nat, k: nat)
    requires
        list_len_is(b, p, n),
        item_pos(b, p, k) is Some,
    ensures
        k <= n,
{
    if k > n {
        assert(item_pos(b, p, n + 1) is None);
        lemma_item_pos_none_after(b, p, n + 1, (k - n - 1) as nat);
    }
}

} // verus!
