//! Byte-level text helpers for the tabular files: whitespace trimming,
//! delimiter splitting and joining, and decimal numbers.

use vstd::prelude::*;

verus! {

/// Incidental whitespace around cells and header names: space, tab,
/// carriage return.
pub open spec fn is_ws(b: u8) -> bool {
    b == 32 || b == 9 || b == 13
}

/// The sequence without its leading whitespace.
pub open spec fn trim_start(s: Seq<u8>) -> Seq<u8>
    decreases s.len(),
{
    if s.len() > 0 && is_ws(s[0]) {
        trim_start(s.drop_first())
    } else {
        s
    }
}

/// The sequence without its trailing whitespace.
pub open spec fn trim_end(s: Seq<u8>) -> Seq<u8>
    decreases s.len(),
{
    if s.len() > 0 && is_ws(s.last()) {
        trim_end(s.drop_last())
    } else {
        s
    }
}

/// The sequence without leading or trailing whitespace.
pub open spec fn trim(s: Seq<u8>) -> Seq<u8> {
    trim_end(trim_start(s))
}

pub proof fn lemma_trim_start_at(s: Seq<u8>, a: int)
    requires
        0 <= a <= s.len(),
        forall|j: int| 0 <= j < a ==> is_ws(s[j]),
        a < s.len() ==> !is_ws(s[a]),
    ensures
        trim_start(s) == s.subrange(a, s.len() as int),
    decreases a,
{
    if a == 0 {
        assert(s.subrange(0, s.len() as int) =~= s);
    } else {
        assert(is_ws(s[0]));
        lemma_trim_start_at(s.drop_first(), a - 1);
        assert(s.drop_first().subrange(a - 1, s.drop_first().len() as int) =~= s.subrange(
            a,
            s.len() as int,
        ));
    }
}

proof fn lemma_trim_end_at(s: Seq<u8>, b: int)
    requires
        0 <= b <= s.len(),
        forall|j: int| b <= j < s.len() ==> is_ws(s[j]),
        b > 0 ==> !is_ws(s[b - 1]),
    ensures
        trim_end(s) == s.subrange(0, b),
    decreases s.len() - b,
{
    if b == s.len() {
        if s.len() > 0 && is_ws(s.last()) {
            assert(false);
        }
        assert(s.subrange(0, b) =~= s);
    } else {
        assert(is_ws(s.last()));
        lemma_trim_end_at(s.drop_last(), b);
        assert(s.drop_last().subrange(0, b) =~= s.subrange(0, b));
    }
}

/// Trimming an already clean sequence changes nothing.
pub proof fn lemma_trim_clean(s: Seq<u8>)
    requires
        s.len() > 0 ==> !is_ws(s[0]) && !is_ws(s.last()),
    ensures
        trim(s) == s,
{
    lemma_trim_start_at(s, 0);
    assert(s.subrange(0, s.len() as int) =~= s);
    lemma_trim_end_at(s, s.len() as int);
}

/// Copies `s[from..to]` into a fresh vector.
pub fn copy_range(s: &Vec<u8>, from: usize, to: usize) -> (r: Vec<u8>)
    requires
        from <= to <= s@.len(),
    ensures
        r@ == s@.subrange(from as int, to as int),
{
    let mut r: Vec<u8> = Vec::new();
    let mut i: usize = from;
    while i < to
        invariant
            from <= i <= to <= s@.len(),
            r@ == s@.subrange(from as int, i as int),
        decreases to - i,
    {
        r.push(s[i]);
        proof {
            assert(s@.subrange(from as int, i + 1 as int) =~= s@.subrange(from as int, i as int)
                .push(s@[i as int]));
        }
        i += 1;
    }
    r
}

/// Removes leading and trailing whitespace from a cell.
pub fn trim_bytes(s: &Vec<u8>) -> (r: Vec<u8>)
    ensures
        r@ == trim(s@),
{
    let n = s.len();
    let mut a: usize = 0;
    while a < n && is_ws_exec(s[a])
        invariant
            0 <= a <= n == s@.len(),
            forall|j: int| 0 <= j < a ==> is_ws(s@[j]),
        decreases n - a,
    {
        a += 1;
    }
    let mut b: usize = n;
    while b > a && is_ws_exec(s[b - 1])
        invariant
            a <= b <= n == s@.len(),
            forall|j: int| b <= j < n ==> is_ws(s@[j]),
            a < n ==> !is_ws(s@[a as int]),
        decreases b,
    {
        b -= 1;
    }
    proof {
        lemma_trim_start_at(s@, a as int);
        let t = s@.subrange(a as int, n as int);
        if a == n {
            lemma_trim_end_at(t, 0);
        } else {
            lemma_trim_end_at(t, b - a);
            assert(t.subrange(0, b - a) =~= s@.subrange(a as int, b as int));
        }
        assert(s@.subrange(a as int, a as int) =~= s@.subrange(a as int, n as int).subrange(
            0,
            0,
        ));
    }
    copy_range(s, a, b)
}

/// Whether the byte is incidental whitespace.
pub fn is_ws_exec(b: u8) -> (r: bool)
    ensures
        r == is_ws(b),
{
    b == 32 || b == 9 || b == 13
}

/// Whether two byte strings hold the same bytes.
pub fn bytes_eq(a: &Vec<u8>, b: &Vec<u8>) -> (r: bool)
    ensures
        r <==> a@ == b@,
{
    if a.len() != b.len() {
        proof {
            assert(a@.len() != b@.len());
        }
        return false;
    }
    let n = a.len();
    let mut i: usize = 0;
    while i < n
        invariant
            0 <= i <= n,
            a@.len() == n,
            b@.len() == n,
            forall|j: int| 0 <= j < i ==> a@[j] == b@[j],
        decreases n - i,
    {
        if a[i] != b[i] {
            proof {
                assert(a@[i as int] != b@[i as int]);
            }
            return false;
        }
        i += 1;
    }
    proof {
        assert(a@ =~= b@);
    }
    true
}

/// The pieces of `s` between occurrences of the separator `c`; always at
/// least one piece, and one more piece than separators.
pub open spec fn split_on(s: Seq<u8>, c: u8) -> Seq<Seq<u8>>
    decreases s.len(),
{
    if s.len() == 0 {
        seq![Seq::empty()]
    } else if s.last() == c {
        split_on(s.drop_last(), c).push(Seq::empty())
    } else {
        let r = split_on(s.drop_last(), c);
        r.update(r.len() - 1, r.last().push(s.last()))
    }
}

pub proof fn lemma_split_on_len(s: Seq<u8>, c: u8)
    ensures
        split_on(s, c).len() >= 1,
    decreases s.len(),
{
    if s.len() > 0 {
        lemma_split_on_len(s.drop_last(), c);
    }
}

/// The pieces joined back with the separator between them.
pub open spec fn join_with(parts: Seq<Seq<u8>>, c: u8) -> Seq<u8>
    decreases parts.len(),
{
    if parts.len() == 0 {
        Seq::empty()
    } else if parts.len() == 1 {
        parts[0]
    } else {
        join_with(parts.drop_last(), c) + seq![c] + parts.last()
    }
}

/// Splitting after appending a separator and a separator-free tail recovers
/// the tail as one further piece.
proof fn lemma_split_on_append(x: Seq<u8>, b: Seq<u8>, c: u8)
    requires
        forall|i: int| 0 <= i < b.len() ==> b[i] != c,
    ensures
        split_on(x + seq![c] + b, c) == split_on(x, c).push(b),
    decreases b.len(),
{
    lemma_split_on_len(x, c);
    if b.len() == 0 {
        assert(x + seq![c] + b =~= x.push(c));
        assert(x.push(c).drop_last() =~= x);
        assert(split_on(x.push(c), c) == split_on(x, c).push(Seq::empty()));
        assert(b =~= Seq::<u8>::empty());
    } else {
        lemma_split_on_append(x, b.drop_last(), c);
        let whole = x + seq![c] + b;
        assert(whole.last() == b.last());
        assert(whole.last() != c);
        assert(whole.drop_last() =~= x + seq![c] + b.drop_last());
        let r = split_on(whole.drop_last(), c);
        assert(r == split_on(x, c).push(b.drop_last()));
        assert(r.last() == b.drop_last());
        assert(r.last().push(b.last()) =~= b);
        assert(r.update(r.len() - 1, r.last().push(b.last())) =~~= split_on(x, c).push(b));
    }
}

/// Splitting a separator-free sequence yields that one piece.
proof fn lemma_split_on_whole(s: Seq<u8>, c: u8)
    requires
        forall|i: int| 0 <= i < s.len() ==> s[i] != c,
    ensures
        split_on(s, c) == seq![s],
    decreases s.len(),
{
    if s.len() == 0 {
        assert(s =~= Seq::<u8>::empty());
        assert(split_on(s, c) =~= seq![s]);
    } else {
        lemma_split_on_whole(s.drop_last(), c);
        let r = split_on(s.drop_last(), c);
        assert(r.update(0, r.last().push(s.last())) =~= seq![s.drop_last().push(s.last())]);
        assert(s.drop_last().push(s.last()) =~= s);
    }
}

/// Splitting undoes joining, as long as no piece holds the separator.
pub proof fn lemma_split_join(parts: Seq<Seq<u8>>, c: u8)
    requires
        parts.len() >= 1,
        forall|i: int, j: int|
            0 <= i < parts.len() && 0 <= j < parts[i].len() ==> #[trigger] parts[i][j] != c,
    ensures
        split_on(join_with(parts, c), c) == parts,
    decreases parts.len(),
{
    if parts.len() == 1 {
        assert(forall|j: int| 0 <= j < parts[0].len() ==> parts[0][j] != c);
        lemma_split_on_whole(parts[0], c);
        assert(seq![parts[0]] =~= parts);
    } else {
        lemma_split_join(parts.drop_last(), c);
        assert(forall|j: int| 0 <= j < parts.last().len() ==> parts.last()[j] != c) by {
            assert(forall|j: int|
                0 <= j < parts[parts.len() - 1].len() ==> #[trigger] parts[parts.len() - 1][j]
                    != c);
        }
        lemma_split_on_append(join_with(parts.drop_last(), c), parts.last(), c);
        assert(parts.drop_last().push(parts.last()) =~= parts);
    }
}

/// Splits `s` into the pieces between occurrences of `c`.
pub fn split_bytes(s: &Vec<u8>, c: u8) -> (r: Vec<Vec<u8>>)
    ensures
        r.deep_view() == split_on(s@, c),
{
    let mut parts: Vec<Vec<u8>> = Vec::new();
    let mut cur: Vec<u8> = Vec::new();
    let n = s.len();
    let mut i: usize = 0;
    proof {
        assert(s@.subrange(0, 0) =~= Seq::<u8>::empty());
        assert(split_on(s@.subrange(0, 0), c) =~= parts.deep_view().push(cur@));
    }
    while i < n
        invariant
            0 <= i <= n == s@.len(),
            split_on(s@.subrange(0, i as int), c) == parts.deep_view().push(cur@),
        decreases n - i,
    {
        let ghost pre = s@.subrange(0, i as int);
        let ghost post = s@.subrange(0, i + 1 as int);
        let ghost old_parts = parts.deep_view();
        let ghost old_cur = cur@;
        proof {
            assert(post.drop_last() =~= pre);
            assert(post.last() == s@[i as int]);
        }
        if s[i] == c {
            parts.push(cur);
            cur = Vec::new();
            proof {
                assert(parts.deep_view() =~~= old_parts.push(old_cur));
                assert(split_on(post, c) =~~= parts.deep_view().push(cur@));
            }
        } else {
            cur.push(s[i]);
            proof {
                let r = split_on(pre, c);
                lemma_split_on_len(pre, c);
                assert(r == old_parts.push(old_cur));
                assert(r.last() == old_cur);
                assert(split_on(post, c) == r.update(r.len() - 1, old_cur.push(s@[i as int])));
                assert(split_on(post, c) =~~= parts.deep_view().push(cur@));
            }
        }
        i += 1;
    }
    proof {
        assert(s@.subrange(0, n as int) =~= s@);
    }
    let ghost old_parts = parts.deep_view();
    let ghost old_cur = cur@;
    parts.push(cur);
    proof {
        assert(parts.deep_view() =~~= old_parts.push(old_cur));
    }
    parts
}

/// Appends all of `s` to `out`.
pub fn push_bytes(out: &mut Vec<u8>, s: &Vec<u8>)
    ensures
        final(out)@ == old(out)@ + s@,
{
    let n = s.len();
    let mut i: usize = 0;
    while i < n
        invariant
            0 <= i <= n == s@.len(),
            out@ == old(out)@ + s@.subrange(0, i as int),
        decreases n - i,
    {
        out.push(s[i]);
        proof {
            assert(old(out)@ + s@.subrange(0, i + 1 as int) =~= (old(out)@ + s@.subrange(
                0,
                i as int,
            )).push(s@[i as int]));
        }
        i += 1;
    }
    proof {
        assert(s@.subrange(0, n as int) =~= s@);
    }
}

/// Decimal digit.
pub open spec fn is_digit(b: u8) -> bool {
    48 <= b <= 57
}

/// Whether every byte is a decimal digit.
pub open spec fn all_digits(s: Seq<u8>) -> bool {
    forall|i: int| 0 <= i < s.len() ==> is_digit(#[trigger] s[i])
}

/// The number the digit string stands for.
pub open spec fn digits_val(s: Seq<u8>) -> int
    decreases s.len(),
{
    if s.len() == 0 {
        0
    } else {
        digits_val(s.drop_last()) * 10 + (s.last() - 48)
    }
}

pub proof fn lemma_digits_val_nonneg(s: Seq<u8>)
    requires
        all_digits(s),
    ensures
        digits_val(s) >= 0,
    decreases s.len(),
{
    if s.len() > 0 {
        assert(is_digit(s[s.len() - 1]));
        lemma_digits_val_nonneg(s.drop_last());
    }
}

proof fn lemma_digits_val_prefix_le(s: Seq<u8>, i: int)
    requires
        all_digits(s),
        0 <= i <= s.len(),
    ensures
        digits_val(s.take(i)) <= digits_val(s),
    decreases s.len() - i,
{
    if i == s.len() {
        assert(s.take(i) =~= s);
    } else {
        lemma_digits_val_prefix_le(s, i + 1);
        let t = s.take(i + 1);
        assert(t.drop_last() =~= s.take(i));
        assert(t.last() == s[i]);
        assert(is_digit(s[i]));
        assert(all_digits(s.take(i))) by {
            assert(forall|j: int| 0 <= j < i ==> s.take(i)[j] == #[trigger] s[j]);
        }
        lemma_digits_val_nonneg(s.take(i));
        assert(digits_val(s.take(i)) <= digits_val(s.take(i)) * 10 + (s[i] - 48));
    }
}

/// The number a whole cell of digits stands for, when it is one and fits.
pub open spec fn parse_u64(s: Seq<u8>) -> Option<u64> {
    if s.len() > 0 && all_digits(s) && digits_val(s) <= u64::MAX {
        Some(digits_val(s) as u64)
    } else {
        None
    }
}

/// Reads a whole cell of digits as a number; anything else is no number.
pub fn parse_u64_bytes(s: &Vec<u8>) -> (r: Option<u64>)
    ensures
        r == parse_u64(s@),
{
    let n = s.len();
    if n == 0 {
        return None;
    }
    let mut acc: u64 = 0;
    let mut i: usize = 0;
    proof {
        assert(s@.take(0) =~= Seq::<u8>::empty());
    }
    while i < n
        invariant
            0 <= i <= n == s@.len(),
            all_digits(s@.take(i as int)),
            acc == digits_val(s@.take(i as int)),
        decreases n - i,
    {
        let b = s[i];
        if !(48 <= b && b <= 57) {
            proof {
                assert(!is_digit(s@[i as int]));
                assert(!all_digits(s@));
            }
            return None;
        }
        let d: u64 = (b - 48) as u64;
        let ghost post = s@.take(i + 1 as int);
        proof {
            assert(post.drop_last() =~= s@.take(i as int));
            assert(post.last() == s@[i as int]);
            assert(forall|j: int| 0 <= j < i + 1 ==> is_digit(#[trigger] post[j])) by {
                assert(forall|j: int| 0 <= j < i ==> post[j] == s@.take(i as int)[j]);
            }
        }
        if acc > (u64::MAX - d) / 10 {
            proof {
                assert(digits_val(post) == acc * 10 + d);
                assert(digits_val(post) > u64::MAX);
            }
            // The value exceeds the machine range; the full cell can only be
            // larger if the rest are digits, and is no number otherwise.
            return none_when_overflow(s, i + 1);
        }
        acc = acc * 10 + d;
        i += 1;
    }
    proof {
        assert(s@.take(n as int) =~= s@);
        lemma_digits_val_nonneg(s@);
    }
    Some(acc)
}

/// After a prefix whose value already exceeds the range, the cell parses to
/// no number.
fn none_when_overflow(s: &Vec<u8>, k: usize) -> (r: Option<u64>)
    requires
        0 < k <= s@.len(),
        all_digits(s@.take(k as int)),
        digits_val(s@.take(k as int)) > u64::MAX,
    ensures
        r == parse_u64(s@),
{
    proof {
        if all_digits(s@) {
            lemma_digits_val_prefix_le(s@, k as int);
        }
    }
    None
}

/// The decimal digits of `n`, most significant first.
pub open spec fn dec_digits(n: int) -> Seq<u8>
    decreases n,
{
    if n < 10 {
        seq![(48 + if n >= 0 { n } else { 0 }) as u8]
    } else {
        dec_digits(n / 10).push((48 + n % 10) as u8)
    }
}

/// Writes `n` in decimal.
pub fn dec_u64(n: u64) -> (r: Vec<u8>)
    ensures
        r@ == dec_digits(n as int),
    decreases n,
{
    if n < 10 {
        let mut v: Vec<u8> = Vec::new();
        v.push((48 + n) as u8);
        proof {
            assert(v@ =~= dec_digits(n as int));
        }
        v
    } else {
        let mut v = dec_u64(n / 10);
        v.push((48 + n % 10) as u8);
        v
    }
}

/// Decimal digit strings read back as the number they were written from.
pub proof fn lemma_dec_digits_roundtrip(n: int)
    requires
        0 <= n <= u64::MAX,
    ensures
        dec_digits(n).len() > 0,
        all_digits(dec_digits(n)),
        digits_val(dec_digits(n)) == n,
        parse_u64(dec_digits(n)) == Some(n as u64),
    decreases n,
{
    if n < 10 {
        let s = dec_digits(n);
        assert(s == seq![(48 + n) as u8]);
        assert(s.drop_last() =~= Seq::<u8>::empty());
        assert(digits_val(s.drop_last()) == 0);
        assert(s.last() == (48 + n) as u8);
        assert(digits_val(s) == n);
    } else {
        lemma_dec_digits_roundtrip(n / 10);
        let d = dec_digits(n);
        assert(d.drop_last() =~= dec_digits(n / 10));
        assert(digits_val(d) == (n / 10) * 10 + n % 10);
    }
}


/// Appending a separator-free tail extends the last piece of the split.
pub proof fn lemma_split_on_append_free(x: Seq<u8>, b: Seq<u8>, c: u8)
    requires
        forall|i: int| 0 <= i < b.len() ==> b[i] != c,
    ensures
        split_on(x + b, c) == split_on(x, c).update(
            split_on(x, c).len() - 1,
            split_on(x, c).last() + b,
        ),
    decreases b.len(),
{
    lemma_split_on_len(x, c);
    let r = split_on(x, c);
    if b.len() == 0 {
        assert(x + b =~= x);
        assert(r.last() + b =~= r.last());
        assert(r.update(r.len() - 1, r.last() + b) =~~= r);
    } else {
        lemma_split_on_append_free(x, b.drop_last(), c);
        let whole = x + b;
        assert(whole.last() == b.last());
        assert(whole.last() != c);
        assert(whole.drop_last() =~= x + b.drop_last());
        let q = split_on(whole.drop_last(), c);
        assert(q == r.update(r.len() - 1, r.last() + b.drop_last()));
        lemma_split_on_len(whole.drop_last(), c);
        assert(q.last() == r.last() + b.drop_last());
        assert(q.last().push(b.last()) =~= r.last() + b);
        assert(q.update(q.len() - 1, q.last().push(whole.last())) =~~= r.update(
            r.len() - 1,
            r.last() + b,
        ));
    }
}

/// A join holds no byte that neither the pieces nor the separator hold.
pub proof fn lemma_join_free(parts: Seq<Seq<u8>>, c: u8, d: u8)
    requires
        d != c,
        forall|i: int, j: int|
            0 <= i < parts.len() && 0 <= j < parts[i].len() ==> #[trigger] parts[i][j] != d,
    ensures
        forall|k: int| 0 <= k < join_with(parts, c).len() ==> #[trigger] join_with(parts, c)[k]
            != d,
    decreases parts.len(),
{
    if parts.len() == 0 {
    } else if parts.len() == 1 {
        assert(forall|j: int| 0 <= j < parts[0].len() ==> #[trigger] parts[0][j] != d);
    } else {
        lemma_join_free(parts.drop_last(), c, d);
        assert(forall|i: int, j: int|
            0 <= i < parts.drop_last().len() && 0 <= j < parts.drop_last()[i].len()
                ==> #[trigger] parts.drop_last()[i][j] != d) by {
            assert(forall|i: int, j: int|
                0 <= i < parts.len() - 1 && 0 <= j < parts[i].len() ==> #[trigger] parts[i][j]
                    != d);
        }
        let pre = join_with(parts.drop_last(), c);
        let last = parts.last();
        assert(forall|j: int| 0 <= j < last.len() ==> #[trigger] last[j] != d) by {
            assert(forall|j: int|
                0 <= j < parts[parts.len() - 1].len() ==> #[trigger] parts[parts.len() - 1][j]
                    != d);
        }
        let whole = pre + seq![c] + last;
        assert forall|k: int| 0 <= k < whole.len() implies #[trigger] whole[k] != d by {
            if k < pre.len() {
                assert(whole[k] == pre[k]);
            } else if k == pre.len() {
                assert(whole[k] == c);
            } else {
                assert(whole[k] == last[k - pre.len() - 1]);
            }
        }
    }
}

/// Where a join begins: with the first piece's first byte, or with the
/// separator when the first piece is empty and more follow.
pub proof fn lemma_join_first_byte(parts: Seq<Seq<u8>>, c: u8)
    requires
        parts.len() >= 1,
    ensures
        join_with(parts, c).len() >= parts[0].len(),
        parts.len() >= 2 ==> join_with(parts, c).len() > parts[0].len(),
        parts[0].len() > 0 ==> join_with(parts, c)[0] == parts[0][0],
        parts.len() >= 2 && parts[0].len() == 0 ==> join_with(parts, c)[0] == c,
    decreases parts.len(),
{
    if parts.len() == 1 {
    } else {
        lemma_join_first_byte(parts.drop_last(), c);
        assert(parts.drop_last()[0] == parts[0]);
        let pre = join_with(parts.drop_last(), c);
        let whole = pre + seq![c] + parts.last();
        if pre.len() > 0 {
            assert(whole[0] == pre[0]);
        } else {
            assert(whole[0] == c);
        }
    }
}

proof fn lemma_trim_start_len(s: Seq<u8>)
    ensures
        trim_start(s).len() <= s.len(),
        s.len() > 0 && is_ws(s[0]) ==> trim_start(s).len() < s.len(),
    decreases s.len(),
{
    if s.len() > 0 && is_ws(s[0]) {
        lemma_trim_start_len(s.drop_first());
    }
}

proof fn lemma_trim_end_len(s: Seq<u8>)
    ensures
        trim_end(s).len() <= s.len(),
        s.len() > 0 && is_ws(s.last()) ==> trim_end(s).len() < s.len(),
    decreases s.len(),
{
    if s.len() > 0 && is_ws(s.last()) {
        lemma_trim_end_len(s.drop_last());
    }
}

/// A string that trimming leaves alone has no whitespace at either end.
pub proof fn lemma_trim_fixed_ends(s: Seq<u8>)
    requires
        trim(s) == s,
    ensures
        s.len() > 0 ==> !is_ws(s[0]) && !is_ws(s.last()),
{
    if s.len() > 0 {
        lemma_trim_start_len(s);
        lemma_trim_end_len(trim_start(s));
        if is_ws(s[0]) {
            assert(trim(s).len() < s.len());
        }
        if !is_ws(s[0]) && is_ws(s.last()) {
            assert(trim_start(s) == s);
            assert(trim(s).len() < s.len());
        }
    }
}

} // verus!
