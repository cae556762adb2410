use vstd::prelude::*;
use vstd::string::*;

verus! {

/// The character of a decimal digit.
pub open spec fn digit_char(d: int) -> char {
    ((48 + d) as u32) as char
}

/// The last `width` decimal digits of `n`, most significant first, with
/// leading zeros.
pub open spec fn padded_decimal(n: nat, width: nat) -> Seq<char>
    decreases width,
{
    if width == 0 {
        Seq::empty()
    } else {
        padded_decimal(n / 10, (width - 1) as nat).push(digit_char((n % 10) as int))
    }
}

/// The text of a chunk: three ten-digit zero-padded numbers, written
/// `top/first_block-last_block`.
pub open spec fn chunk_text(top: u32, first_block: u32, last_block: u32) -> Seq<char> {
    padded_decimal(top as nat, 10) + seq!['/'] + padded_decimal(first_block as nat, 10) + seq!['-']
        + padded_decimal(last_block as nat, 10)
}

fn digit_str(d: u32) -> (s: &'static str)
    requires
        d < 10,
    ensures
        s@ == seq![digit_char(d as int)],
{
    proof {
        reveal_strlit("0");
        reveal_strlit("1");
        reveal_strlit("2");
        reveal_strlit("3");
        reveal_strlit("4");
        reveal_strlit("5");
        reveal_strlit("6");
        reveal_strlit("7");
        reveal_strlit("8");
        reveal_strlit("9");
    }
    let s = match d {
        0 => "0",
        1 => "1",
        2 => "2",
        3 => "3",
        4 => "4",
        5 => "5",
        6 => "6",
        7 => "7",
        8 => "8",
        _ => "9",
    };
    assert(s@ =~= seq![digit_char(d as int)]);
    s
}

fn push_padded(text: &mut String, n: u32, width: u32)
    ensures
        final(text)@ == old(text)@ + padded_decimal(n as nat, width as nat),
    decreases width,
{
    if width > 0 {
        push_padded(text, n / 10, width - 1);
        text.append(digit_str(n % 10));
        assert(text@ =~= old(text)@ + padded_decimal(n as nat, width as nat));
    }
}

/// A stored piece of a dataset: the blocks `first_block..=last_block`,
/// written against the dataset as it stood at block `top`. Always
/// `top <= first_block <= last_block`.
#[derive(Copy, Clone, Debug, PartialEq, Eq, Structural, PartialOrd, Ord)]
pub struct DataChunk {
    top: u32,
    first_block: u32,
    last_block: u32,
}

impl View for DataChunk {
    type V = (u32, u32, u32);

    closed spec fn view(&self) -> (u32, u32, u32) {
        (self.top, self.first_block, self.last_block)
    }
}

/// The three numbers make a chunk.
pub open spec fn chunk_bounds_valid(top: u32, first_block: u32, last_block: u32) -> bool {
    top <= first_block <= last_block
}

fn chunk_string(top: u32, first_block: u32, last_block: u32) -> (text: String)
    ensures
        text@ == chunk_text(top, first_block, last_block),
{
    proof {
        reveal_strlit("/");
        reveal_strlit("-");
    }
    let mut text = String::new();
    push_padded(&mut text, top, 10);
    text.append("/");
    push_padded(&mut text, first_block, 10);
    text.append("-");
    push_padded(&mut text, last_block, 10);
    assert(text@ =~= chunk_text(top, first_block, last_block));
    text
}

impl DataChunk {
    #[verifier::type_invariant]
    spec fn well_formed(self) -> bool {
        chunk_bounds_valid(self.top, self.first_block, self.last_block)
    }

    /// The chunk with the given bounds, which must satisfy
    /// `top <= first_block <= last_block`: exactly the bounds on which
    /// [`DataChunk::try_new`] succeeds, with the chunk it builds.
    pub fn new(top: u32, first_block: u32, last_block: u32) -> (c: Self)
        requires
            chunk_bounds_valid(top, first_block, last_block),
        ensures
            c@ == (top, first_block, last_block),
    {
        Self::try_new(top, first_block, last_block).expect("Invalid data chunk")
    }

    /// The chunk with the given bounds, or a message naming the first bound
    /// that is out of order, followed by the chunk's text.
    pub fn try_new(top: u32, first_block: u32, last_block: u32) -> (r: Result<Self, String>)
        ensures
            r is Ok <==> chunk_bounds_valid(top, first_block, last_block),
            r matches Ok(c) ==> c@ == (top, first_block, last_block),
            first_block < top ==> (r matches Err(msg) && msg@ == "first_block < top in "@ + chunk_text(
                top,
                first_block,
                last_block,
            )),
            top <= first_block && last_block < first_block ==> (r matches Err(msg) && msg@
                == "last_block < first_block in "@ + chunk_text(top, first_block, last_block)),
    {
        if first_block < top {
            let mut msg = String::from_str("first_block < top in ");
            msg.append(chunk_string(top, first_block, last_block).as_str());
            return Err(msg);
        }
        if last_block < first_block {
            let mut msg = String::from_str("last_block < first_block in ");
            msg.append(chunk_string(top, first_block, last_block).as_str());
            return Err(msg);
        }
        Ok(DataChunk { top, first_block, last_block })
    }

    /// The block at which the chunk's dataset stood.
    pub fn top(&self) -> (t: u32)
        ensures
            t == self@.0,
            chunk_bounds_valid(self@.0, self@.1, self@.2),
    {
        proof {
            use_type_invariant(self);
        }
        self.top
    }

    /// The first block of the chunk.
    pub fn first_block(&self) -> (b: u32)
        ensures
            b == self@.1,
            chunk_bounds_valid(self@.0, self@.1, self@.2),
    {
        proof {
            use_type_invariant(self);
        }
        self.first_block
    }

    /// The last block of the chunk.
    pub fn last_block(&self) -> (b: u32)
        ensures
            b == self@.2,
            chunk_bounds_valid(self@.0, self@.1, self@.2),
    {
        proof {
            use_type_invariant(self);
        }
        self.last_block
    }

    /// The chunk's text, `top/first_block-last_block`, each number written
    /// with ten zero-padded digits.
    pub fn to_string(&self) -> (text: String)
        ensures
            text@ == chunk_text(self@.0, self@.1, self@.2),
    {
        chunk_string(self.top, self.first_block, self.last_block)
    }
}

/// An ASCII decimal digit.
pub open spec fn is_digit(c: char) -> bool {
    48 <= c as u32 <= 57
}

/// The number that a string of decimal digits denotes.
pub open spec fn decimal_value(digits: Seq<char>) -> nat
    decreases digits.len(),
{
    if digits.len() == 0 {
        0
    } else {
        decimal_value(digits.drop_last()) * 10 + ((digits.last() as u32) - 48) as nat
    }
}

/// The text after an optional leading `+`.
pub open spec fn unsigned_digits(text: Seq<char>) -> Seq<char> {
    if text.len() > 0 && text[0] == '+' {
        text.skip(1)
    } else {
        text
    }
}

/// How the standard library reads a `u32` from text: an optional `+`, then
/// one or more ASCII digits whose value fits in a `u32`; anything else is
/// refused.
pub open spec fn parse_u32_spec(text: Seq<char>) -> Option<u32> {
    let d = unsigned_digits(text);
    if d.len() > 0 && (forall|i: int| 0 <= i < d.len() ==> is_digit(#[trigger] d[i])) && decimal_value(d)
        <= u32::MAX {
        Some(decimal_value(d) as u32)
    } else {
        None
    }
}

/// `k` is the position of the first `-` of the text.
pub open spec fn is_first_dash(text: Seq<char>, k: int) -> bool {
    0 <= k < text.len() && text[k] == '-' && forall|j: int| 0 <= j < k ==> #[trigger] text[j] != '-'
}

/// The text split at its first `-`: the part before it and the part from
/// it on, each read as a `u32`.
pub open spec fn parse_interval_spec(text: Seq<char>) -> Option<(u32, u32)> {
    if exists|k: int| is_first_dash(text, k) {
        let k = choose|k: int| is_first_dash(text, k);
        match (parse_u32_spec(text.take(k)), parse_u32_spec(text.skip(k))) {
            (Some(beg), Some(end)) => Some((beg, end)),
            _ => None,
        }
    } else {
        None
    }
}

proof fn lemma_prefix_value_le(d: Seq<char>, i: int)
    requires
        0 <= i <= d.len(),
        forall|j: int| 0 <= j < d.len() ==> is_digit(#[trigger] d[j]),
    ensures
        decimal_value(d.take(i)) <= decimal_value(d),
    decreases d.len() - i,
{
    if i < d.len() {
        lemma_prefix_value_le(d, i + 1);
        assert(d.take(i + 1).drop_last() =~= d.take(i));
    } else {
        assert(d.take(i) =~= d);
    }
}

/// Reads a `u32` from decimal text as the standard library does.
fn parse_decimal_u32(text: &str) -> (r: Option<u32>)
    ensures
        r == parse_u32_spec(text@),
{
    let n = text.unicode_len();
    let mut start: usize = 0;
    if n > 0 && text.get_char(0) == '+' {
        start = 1;
    }
    let ghost d = unsigned_digits(text@);
    assert(d =~= text@.subrange(start as int, n as int));
    if start == n {
        return None;
    }
    let mut acc: u64 = 0;
    let mut i: usize = start;
    while i < n
        invariant
            n == text@.len(),
            start <= i <= n,
            d == text@.subrange(start as int, n as int),
            d == unsigned_digits(text@),
            forall|j: int| start <= j < i ==> is_digit(#[trigger] text@[j]),
            acc == decimal_value(text@.subrange(start as int, i as int)),
            acc <= u32::MAX,
        decreases n - i,
    {
        let c = text.get_char(i);
        assert(d[i - start] == text@[i as int]);
        if !('0' <= c && c <= '9') {
            assert(!(48 <= (c as u32) <= 57));
            assert(!is_digit(d[i - start]));
            return None;
        }
        let ghost prefix = text@.subrange(start as int, i + 1);
        assert(prefix.drop_last() =~= text@.subrange(start as int, i as int));
        assert(prefix.last() == c);
        assert(is_digit(c));
        acc = acc * 10 + ((c as u32) - 48) as u64;
        if acc > u32::MAX as u64 {
            proof {
                if forall|j: int| 0 <= j < d.len() ==> is_digit(#[trigger] d[j]) {
                    lemma_prefix_value_le(d, i + 1 - start);
                    assert(d.take(i + 1 - start) =~= prefix);
                }
            }
            return None;
        }
        i = i + 1;
    }
    assert(text@.subrange(start as int, n as int) =~= d);
    Some(acc as u32)
}

/// Reads `beg-end` by splitting the text at its first `-`. The second part
/// keeps the `-`, which no `u32` reading accepts, so no text is ever read:
/// the result is always `None`.
pub fn parse_interval(text: &str) -> (r: Option<(u32, u32)>)
    ensures
        r == parse_interval_spec(text@),
        r is None,
{
    let n = text.unicode_len();
    let mut i: usize = 0;
    while i < n && text.get_char(i) != '-'
        invariant
            n == text@.len(),
            i <= n,
            forall|j: int| 0 <= j < i ==> #[trigger] text@[j] != '-',
        decreases n - i,
    {
        i = i + 1;
    }
    if i == n {
        assert(!exists|k: int| is_first_dash(text@, k));
        return None;
    }
    assert(is_first_dash(text@, i as int));
    let ghost k = choose|k: int| is_first_dash(text@, k);
    assert(k == i) by {
        if k < i {
            assert(text@[k] != '-');
        } else if k > i {
            assert(text@[i as int] != '-');
        }
    }
    let left = text.substring_char(0, i);
    let right = text.substring_char(i, n);
    assert(left@ =~= text@.take(i as int));
    assert(right@ =~= text@.skip(i as int));
    assert(right@[0] == '-');
    assert(!is_digit(unsigned_digits(right@)[0]));
    let beg = match parse_decimal_u32(left) {
        Some(b) => b,
        None => return None,
    };
    let end = match parse_decimal_u32(right) {
        Some(e) => e,
        None => return None,
    };
    Some((beg, end))
}

/// Ten to the power `w`.
pub open spec fn pow10(w: nat) -> nat
    decreases w,
{
    if w == 0 {
        1
    } else {
        10 * pow10((w - 1) as nat)
    }
}

/// Writing a number below `10^w` with `w` zero-padded digits gives `w`
/// digits that denote the number again.
pub proof fn lemma_padded_decimal_reads_back(n: nat, w: nat)
    requires
        n < pow10(w),
    ensures
        padded_decimal(n, w).len() == w,
        forall|i: int| 0 <= i < w ==> is_digit(#[trigger] padded_decimal(n, w)[i]),
        decimal_value(padded_decimal(n, w)) == n,
    decreases w,
{
    if w > 0 {
        let q = n / 10;
        let d = n % 10;
        assert(q < pow10((w - 1) as nat)) by (nonlinear_arith)
            requires
                n < 10 * pow10((w - 1) as nat),
                q == n / 10,
        ;
        lemma_padded_decimal_reads_back(q, (w - 1) as nat);
        let prev = padded_decimal(q, (w - 1) as nat);
        let c = digit_char(d as int);
        assert(c as u32 == 48 + d);
        assert(padded_decimal(n, w) == prev.push(c));
        assert(prev.push(c).drop_last() =~= prev);
        assert(n == q * 10 + d) by (nonlinear_arith)
            requires
                q == n / 10,
                d == n % 10,
        ;
    }
}

/// Each of the three numbers of a chunk's text, read back as the standard
/// library reads a `u32`, is the number written.
pub proof fn lemma_chunk_text_reads_back(top: u32, first_block: u32, last_block: u32)
    ensures
        chunk_text(top, first_block, last_block).len() == 32,
        chunk_text(top, first_block, last_block)[10] == '/',
        chunk_text(top, first_block, last_block)[21] == '-',
        parse_u32_spec(chunk_text(top, first_block, last_block).subrange(0, 10)) == Some(top),
        parse_u32_spec(chunk_text(top, first_block, last_block).subrange(11, 21)) == Some(first_block),
        parse_u32_spec(chunk_text(top, first_block, last_block).subrange(22, 32)) == Some(last_block),
{
    assert(pow10(10) == 10_000_000_000) by {
        reveal_with_fuel(pow10, 11);
    }
    let t = chunk_text(top, first_block, last_block);
    let a = padded_decimal(top as nat, 10);
    let b = padded_decimal(first_block as nat, 10);
    let c = padded_decimal(last_block as nat, 10);
    lemma_padded_decimal_reads_back(top as nat, 10);
    lemma_padded_decimal_reads_back(first_block as nat, 10);
    lemma_padded_decimal_reads_back(last_block as nat, 10);
    assert(t.subrange(0, 10) =~= a);
    assert(t.subrange(11, 21) =~= b);
    assert(t.subrange(22, 32) =~= c);
    assert(unsigned_digits(a) == a);
    assert(unsigned_digits(b) == b);
    assert(unsigned_digits(c) == c);
}

/// Position `k` is where the two texts first differ, and there the first
/// text has the smaller character.
pub open spec fn first_difference_at(s: Seq<char>, t: Seq<char>, k: int) -> bool {
    &&& 0 <= k < s.len()
    &&& k < t.len()
    &&& s.take(k) == t.take(k)
    &&& (s[k] as u32) < (t[k] as u32)
}

/// Lexicographic order of texts, as `str` compares them for ASCII text: the
/// first text is smaller at the first position where they differ, or it is
/// a proper prefix of the second.
pub open spec fn text_less(s: Seq<char>, t: Seq<char>) -> bool {
    ||| exists|k: int| #[trigger] first_difference_at(s, t, k)
    ||| (s.len() < t.len() && t.take(s.len() as int) == s)
}

/// The order of chunks: by `top`, then `first_block`, then `last_block`.
pub open spec fn chunk_less(a: (u32, u32, u32), b: (u32, u32, u32)) -> bool {
    ||| a.0 < b.0
    ||| (a.0 == b.0 && a.1 < b.1)
    ||| (a.0 == b.0 && a.1 == b.1 && a.2 < b.2)
}

proof fn lemma_text_less_concat(p: Seq<char>, r: Seq<char>, q: Seq<char>, u: Seq<char>)
    requires
        p.len() == q.len(),
        r.len() == u.len(),
    ensures
        text_less(p + r, q + u) <==> (text_less(p, q) || (p == q && text_less(r, u))),
        (p + r == q + u) <==> (p == q && r == u),
{
    let s = p + r;
    let t = q + u;
    let n = p.len() as int;
    if p + r == q + u {
        assert(p =~= s.take(n));
        assert(q =~= t.take(n));
        assert(r =~= s.skip(n));
        assert(u =~= t.skip(n));
    }
    if text_less(s, t) {
        let k = choose|k: int| #[trigger] first_difference_at(s, t, k);
        if k < n {
            assert(s.take(k) =~= p.take(k));
            assert(t.take(k) =~= q.take(k));
            assert(first_difference_at(p, q, k));
        } else {
            assert(p =~= s.take(k).take(n));
            assert(q =~= t.take(k).take(n));
            assert(r.take(k - n) =~= s.take(k).skip(n));
            assert(u.take(k - n) =~= t.take(k).skip(n));
            assert(first_difference_at(r, u, k - n));
        }
    }
    if text_less(p, q) {
        let k = choose|k: int| #[trigger] first_difference_at(p, q, k);
        assert(s.take(k) =~= p.take(k));
        assert(t.take(k) =~= q.take(k));
        assert(first_difference_at(s, t, k));
    } else if p == q && text_less(r, u) {
        let k = choose|k: int| #[trigger] first_difference_at(r, u, k);
        assert(s.take(n + k) =~= p + r.take(k));
        assert(t.take(n + k) =~= q + u.take(k));
        assert(first_difference_at(s, t, n + k));
    }
}

proof fn lemma_padded_decimal_order(n: nat, m: nat, w: nat)
    requires
        n < pow10(w),
        m < pow10(w),
    ensures
        text_less(padded_decimal(n, w), padded_decimal(m, w)) <==> n < m,
        (padded_decimal(n, w) == padded_decimal(m, w)) <==> n == m,
    decreases w,
{
    lemma_padded_decimal_reads_back(n, w);
    lemma_padded_decimal_reads_back(m, w);
    if w == 0 {
        assert(!text_less(padded_decimal(n, w), padded_decimal(m, w)));
    } else {
        let qn = n / 10;
        let qm = m / 10;
        let dn = n % 10;
        let dm = m % 10;
        assert(qn < pow10((w - 1) as nat) && qm < pow10((w - 1) as nat)) by (nonlinear_arith)
            requires
                n < 10 * pow10((w - 1) as nat),
                m < 10 * pow10((w - 1) as nat),
                qn == n / 10,
                qm == m / 10,
        ;
        lemma_padded_decimal_order(qn, qm, (w - 1) as nat);
        lemma_padded_decimal_reads_back(qn, (w - 1) as nat);
        lemma_padded_decimal_reads_back(qm, (w - 1) as nat);
        let p = padded_decimal(qn, (w - 1) as nat);
        let q = padded_decimal(qm, (w - 1) as nat);
        let x = seq![digit_char(dn as int)];
        let y = seq![digit_char(dm as int)];
        assert(padded_decimal(n, w) =~= p + x);
        assert(padded_decimal(m, w) =~= q + y);
        lemma_text_less_concat(p, x, q, y);
        assert(digit_char(dn as int) as u32 == 48 + dn);
        assert(digit_char(dm as int) as u32 == 48 + dm);
        if text_less(x, y) {
            let k = choose|k: int| #[trigger] first_difference_at(x, y, k);
            assert(k == 0);
        }
        if dn < dm {
            assert(x.take(0) =~= y.take(0));
            assert(first_difference_at(x, y, 0));
        }
        assert(x == y <==> dn == dm) by {
            if x == y {
                assert(x[0] == y[0]);
            }
        }
        assert(n < m <==> (qn < qm || (qn == qm && dn < dm))) by (nonlinear_arith)
            requires
                qn == n / 10,
                qm == m / 10,
                dn == n % 10,
                dm == m % 10,
        ;
        assert(n == m <==> (qn == qm && dn == dm)) by (nonlinear_arith)
            requires
                qn == n / 10,
                qm == m / 10,
                dn == n % 10,
                dm == m % 10,
        ;
    }
}

/// The text of a chunk has 32 characters, and texts compare as the chunks
/// do: one chunk's text is lexicographically smaller exactly when the chunk
/// is smaller by `top`, then `first_block`, then `last_block`, and two texts
/// are equal exactly when the chunks are.
pub proof fn lemma_chunk_text_order(a: DataChunk, b: DataChunk)
    ensures
        chunk_text(a@.0, a@.1, a@.2).len() == 32,
        text_less(chunk_text(a@.0, a@.1, a@.2), chunk_text(b@.0, b@.1, b@.2)) <==> chunk_less(a@, b@),
        (chunk_text(a@.0, a@.1, a@.2) == chunk_text(b@.0, b@.1, b@.2)) <==> a@ == b@,
{
    assert(pow10(10) == 10_000_000_000) by {
        reveal_with_fuel(pow10, 11);
    }
    lemma_chunk_text_reads_back(a@.0, a@.1, a@.2);
    let ta = padded_decimal(a@.0 as nat, 10);
    let fa = padded_decimal(a@.1 as nat, 10);
    let la = padded_decimal(a@.2 as nat, 10);
    let tb = padded_decimal(b@.0 as nat, 10);
    let fb = padded_decimal(b@.1 as nat, 10);
    let lb = padded_decimal(b@.2 as nat, 10);
    lemma_padded_decimal_order(a@.0 as nat, b@.0 as nat, 10);
    lemma_padded_decimal_order(a@.1 as nat, b@.1 as nat, 10);
    lemma_padded_decimal_order(a@.2 as nat, b@.2 as nat, 10);
    lemma_padded_decimal_reads_back(a@.0 as nat, 10);
    lemma_padded_decimal_reads_back(a@.1 as nat, 10);
    lemma_padded_decimal_reads_back(a@.2 as nat, 10);
    lemma_padded_decimal_reads_back(b@.0 as nat, 10);
    lemma_padded_decimal_reads_back(b@.1 as nat, 10);
    lemma_padded_decimal_reads_back(b@.2 as nat, 10);
    let slash = seq!['/'];
    let dash = seq!['-'];
    assert(!text_less(slash, slash)) by {
        if text_less(slash, slash) {
            let k = choose|k: int| #[trigger] first_difference_at(slash, slash, k);
        }
    }
    assert(!text_less(dash, dash)) by {
        if text_less(dash, dash) {
            let k = choose|k: int| #[trigger] first_difference_at(dash, dash, k);
        }
    }
    // the tail `-last_block`
    lemma_text_less_concat(dash, la, dash, lb);
    // `first_block` followed by that tail
    lemma_text_less_concat(fa, dash + la, fb, dash + lb);
    // `/` followed by that
    lemma_text_less_concat(slash, fa + (dash + la), slash, fb + (dash + lb));
    // `top` followed by the rest
    lemma_text_less_concat(ta, slash + (fa + (dash + la)), tb, slash + (fb + (dash + lb)));
    assert(chunk_text(a@.0, a@.1, a@.2) =~= ta + (slash + (fa + (dash + la))));
    assert(chunk_text(b@.0, b@.1, b@.2) =~= tb + (slash + (fb + (dash + lb))));
}

} // verus!
