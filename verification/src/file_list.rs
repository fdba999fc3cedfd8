//! Parsing of the save protocol's file-list line.
//!
//! The line holds zero or more tokens of the form ` path:size`: a space, a
//! run of non-whitespace characters, a colon, and a positive decimal size
//! with no leading zero.  Within one whitespace-delimited word the colon
//! chosen is the rightmost one followed by a nonzero digit, so paths may
//! themselves contain colons and digits.  Non-matching text is ignored; a
//! size too large for 64 bits aborts the parse, since a partially parsed
//! list would silently drop files from a snapshot.
use crate::chars::digit_char;
use crate::chars::digit_char_of;
use crate::chars::digit_val;
use crate::chars::is_digit;
use crate::chars::is_pos_digit;
use crate::chars::is_wsp;
use crate::chars::pos_digit_char;
use crate::chars::wsp_char;
use crate::BackupError;
use vstd::prelude::*;

verus! {

/// One file to copy: its path relative to the world root, and the logical
/// size that bounds the snapshot copy.
#[derive(Debug)]
pub struct FileEntry {
    pub path: Vec<char>,
    pub size: u64,
}

/// A raw token of the file list: the path characters and the size digits.
pub struct Token {
    pub path: Seq<char>,
    pub digits: Seq<char>,
}

/// End of the whitespace-free run that starts at `i`.
pub open spec fn word_end(s: Seq<char>, i: int) -> int
    decreases s.len() - i,
    when 0 <= i <= s.len()
{
    if i == s.len() || is_wsp(s[i]) {
        i
    } else {
        word_end(s, i + 1)
    }
}

pub proof fn lemma_word_end(s: Seq<char>, i: int)
    requires
        0 <= i <= s.len(),
    ensures
        i <= word_end(s, i) <= s.len(),
        forall|k: int| i <= k < word_end(s, i) ==> !is_wsp(s[k]),
        word_end(s, i) < s.len() ==> is_wsp(s[word_end(s, i)]),
    decreases s.len() - i,
{
    if i == s.len() || is_wsp(s[i]) {
    } else {
        lemma_word_end(s, i + 1);
    }
}

pub proof fn lemma_word_end_is(s: Seq<char>, i: int, e: int)
    requires
        0 <= i <= e <= s.len(),
        forall|k: int| i <= k < e ==> !is_wsp(s[k]),
        e == s.len() || is_wsp(s[e]),
    ensures
        word_end(s, i) == e,
    decreases e - i,
{
    if i < e {
        lemma_word_end_is(s, i + 1, e);
    }
}

/// End of the digit run that starts at `i`.
pub open spec fn digit_run_end(s: Seq<char>, i: int) -> int
    decreases s.len() - i,
    when 0 <= i <= s.len()
{
    if i == s.len() || !is_digit(s[i]) {
        i
    } else {
        digit_run_end(s, i + 1)
    }
}

pub proof fn lemma_digit_run_end(s: Seq<char>, i: int)
    requires
        0 <= i <= s.len(),
    ensures
        i <= digit_run_end(s, i) <= s.len(),
        forall|k: int| i <= k < digit_run_end(s, i) ==> is_digit(s[k]),
        digit_run_end(s, i) < s.len() ==> !is_digit(s[digit_run_end(s, i)]),
    decreases s.len() - i,
{
    if i == s.len() || !is_digit(s[i]) {
    } else {
        lemma_digit_run_end(s, i + 1);
    }
}

pub proof fn lemma_digit_run_end_is(s: Seq<char>, i: int, e: int)
    requires
        0 <= i <= e <= s.len(),
        forall|k: int| i <= k < e ==> is_digit(s[k]),
        e == s.len() || !is_digit(s[e]),
    ensures
        digit_run_end(s, i) == e,
    decreases e - i,
{
    if i < e {
        lemma_digit_run_end_is(s, i + 1, e);
    }
}

/// A token can split at colon position `k` within the word `[w, we)`:
/// a nonempty path before it and a nonzero digit after it.
pub open spec fn splits_at(s: Seq<char>, w: int, k: int, we: int) -> bool {
    w < k && k + 1 < we && s[k] == ':' && is_pos_digit(s[k + 1])
}

/// The rightmost split position below `j`, or -1.  The rightmost split wins
/// because the path run is matched greedily.
pub open spec fn best_colon(s: Seq<char>, w: int, j: int, we: int) -> int
    decreases j - w,
    when w <= j
{
    if j <= w + 1 {
        -1
    } else if splits_at(s, w, j - 1, we) {
        j - 1
    } else {
        best_colon(s, w, j - 1, we)
    }
}

pub proof fn lemma_best_colon(s: Seq<char>, w: int, j: int, we: int)
    requires
        0 <= w <= j,
    ensures
        ({
            let k = best_colon(s, w, j, we);
            &&& (k == -1 ==> forall|q: int| w < q < j ==> !splits_at(s, w, q, we))
            &&& (k != -1 ==> w < k < j && splits_at(s, w, k, we) && forall|q: int|
                k < q < j ==> !splits_at(s, w, q, we))
        }),
    decreases j - w,
{
    if j <= w + 1 {
    } else if splits_at(s, w, j - 1, we) {
    } else {
        lemma_best_colon(s, w, j - 1, we);
    }
}

pub proof fn lemma_best_colon_is(s: Seq<char>, w: int, j: int, we: int, k: int)
    requires
        w < k < j,
        splits_at(s, w, k, we),
        forall|q: int| k < q < j ==> !splits_at(s, w, q, we),
    ensures
        best_colon(s, w, j, we) == k,
    decreases j - w,
{
    if j - 1 > k {
        lemma_best_colon_is(s, w, j - 1, we, k);
    }
}

/// The token sequence of the file-list line from position `i` on.
pub open spec fn scan(s: Seq<char>, i: int) -> Seq<Token>
    decreases s.len() - i,
    when 0 <= i <= s.len()
    via scan_dec
{
    if i >= s.len() {
        Seq::empty()
    } else if s[i] == ' ' && i + 1 < s.len() && !is_wsp(s[i + 1]) {
        let we = word_end(s, i + 1);
        let k = best_colon(s, i + 1, we, we);
        if k >= 0 {
            let de = digit_run_end(s, k + 2);
            seq![
                Token { path: s.subrange(i + 1, k), digits: s.subrange(k + 1, de) },
            ] + scan(s, de)
        } else {
            scan(s, we)
        }
    } else {
        scan(s, i + 1)
    }
}

#[via_fn]
proof fn scan_dec(s: Seq<char>, i: int) {
    if i < s.len() && s[i] == ' ' && i + 1 < s.len() && !is_wsp(s[i + 1]) {
        lemma_word_end(s, i + 1);
        let we = word_end(s, i + 1);
        lemma_best_colon(s, i + 1, we, we);
        let k = best_colon(s, i + 1, we, we);
        if k >= 0 {
            lemma_digit_run_end(s, k + 2);
        }
    }
}

/// Value of a run of decimal digit characters.
pub open spec fn digits_val(ds: Seq<char>) -> int
    decreases ds.len(),
{
    if ds.len() == 0 {
        0
    } else {
        digits_val(ds.drop_last()) * 10 + digit_val(ds.last())
    }
}

pub open spec fn token_fits(t: Token) -> bool {
    digits_val(t.digits) <= u64::MAX
}

/// Every size in the scanned list fits in 64 bits.
pub open spec fn all_fit(ts: Seq<Token>) -> bool {
    forall|i: int| 0 <= i < ts.len() ==> token_fits(ts[i])
}

/// The parsed entries match the scanned tokens one for one.
pub open spec fn entries_match(v: Seq<FileEntry>, ts: Seq<Token>) -> bool {
    &&& v.len() == ts.len()
    &&& forall|i: int|
        0 <= i < v.len() ==> v[i].path@ == ts[i].path && v[i].size == digits_val(ts[i].digits)
}

pub proof fn lemma_digits_val_nonneg_pub(ds: Seq<char>)
    requires
        forall|i: int| 0 <= i < ds.len() ==> is_digit(ds[i]),
    ensures
        digits_val(ds) >= 0,
    decreases ds.len(),
{
    if ds.len() > 0 {
        lemma_digits_val_nonneg_pub(ds.drop_last());
    }
}

proof fn lemma_digits_val_prefix(ds: Seq<char>, j: int)
    requires
        0 <= j <= ds.len(),
        forall|i: int| 0 <= i < ds.len() ==> is_digit(ds[i]),
    ensures
        digits_val(ds.subrange(0, j)) <= digits_val(ds),
    decreases ds.len() - j,
{
    if j == ds.len() {
        assert(ds.subrange(0, j) =~= ds);
    } else {
        lemma_digits_val_prefix(ds, j + 1);
        let a = ds.subrange(0, j);
        let b = ds.subrange(0, j + 1);
        assert(b.drop_last() =~= a);
        lemma_digits_val_nonneg_pub(a);
        assert(digits_val(b) == digits_val(a) * 10 + digit_val(ds[j]));
    }
}

/// Finds the rightmost split colon of the word `[w, we)`, if any.
fn find_split(s: &Vec<char>, w: usize, we: usize) -> (r: Option<usize>)
    requires
        w < we <= s@.len(),
    ensures
        match r {
            Some(k) => {
                &&& k as int == best_colon(s@, w as int, we as int, we as int)
                &&& w < k && k + 1 < we
                &&& splits_at(s@, w as int, k as int, we as int)
            },
            None => best_colon(s@, w as int, we as int, we as int) == -1,
        },
{
    let mut j: usize = we;
    while j > w + 1
        invariant
            w < we <= s@.len(),
            w + 1 <= j <= we,
            forall|q: int| j <= q < we ==> !#[trigger] splits_at(s@, w as int, q, we as int),
        decreases j,
    {
        let k = j - 1;
        if s[k] == ':' && k + 1 < we && pos_digit_char(s[k + 1]) {
            proof {
                lemma_best_colon_is(s@, w as int, we as int, we as int, k as int);
            }
            return Some(k);
        }
        j -= 1;
    }
    proof {
        lemma_best_colon_none(s@, w as int, we as int, we as int);
    }
    None
}

/// Parses one protocol file-list line into entries, in token order.
/// A size that overflows 64 bits is a protocol violation: a partial list
/// must not reach the snapshot engine.
pub fn parse_file_list(s: &Vec<char>) -> (r: Result<Vec<FileEntry>, BackupError>)
    ensures
        match r {
            Ok(v) => all_fit(scan(s@, 0)) && entries_match(v@, scan(s@, 0)),
            Err(e) => e == BackupError::ProtocolViolation && !all_fit(scan(s@, 0)),
        },
{
    let n = s.len();
    let mut out: Vec<FileEntry> = Vec::new();
    let ghost mut toks: Seq<Token> = Seq::empty();
    let mut i: usize = 0;
    proof {
        assert(scan(s@, 0) =~= toks + scan(s@, 0));
    }
    while i < n
        invariant
            n == s@.len(),
            0 <= i <= n,
            scan(s@, 0) == toks + scan(s@, i as int),
            all_fit(toks),
            entries_match(out@, toks),
        decreases n - i,
    {
        if s[i] == ' ' && i + 1 < n && !wsp_char(s[i + 1]) {
            // Word from i+1; find its end.
            let mut we: usize = i + 1;
            while we < n && !wsp_char(s[we])
                invariant
                    n == s@.len(),
                    i + 1 <= we <= n,
                    forall|k: int| i + 1 <= k < we ==> !is_wsp(s@[k]),
                decreases n - we,
            {
                we += 1;
            }
            proof {
                lemma_word_end_is(s@, i + 1, we as int);
            }
            let split = find_split(s, i + 1, we);
            if let Some(k) = split {
                // Digit run from k+1.
                let mut de: usize = k + 2;
                while de < n && digit_char(s[de])
                    invariant
                        n == s@.len(),
                        k + 2 <= de <= n,
                        forall|q: int| k + 2 <= q < de ==> is_digit(s@[q]),
                    decreases n - de,
                {
                    de += 1;
                }
                proof {
                    lemma_digit_run_end_is(s@, k as int + 2, de as int);
                }
                let ghost tok = Token {
                    path: s@.subrange(i as int + 1, k as int),
                    digits: s@.subrange(k as int + 1, de as int),
                };
                proof {
                    assert(scan(s@, i as int) =~= seq![tok] + scan(s@, de as int));
                    assert(scan(s@, 0) =~= toks + seq![tok] + scan(s@, de as int));
                }
                // Decimal value with an overflow guard.
                let mut acc: u64 = 0;
                let mut p: usize = k + 1;
                let ghost ds = tok.digits;
                proof {
                    assert(ds.subrange(0, 0) =~= Seq::<char>::empty());
                    assert(forall|q: int| 0 <= q < ds.len() ==> is_digit(ds[q]));
                }
                while p < de
                    invariant
                        n == s@.len(),
                        0 <= i,
                        k + 1 <= p <= de <= n,
                        ds == s@.subrange(k as int + 1, de as int),
                        ds == tok.digits,
                        scan(s@, 0) == toks + seq![tok] + scan(s@, de as int),
                        forall|q: int| 0 <= q < ds.len() ==> is_digit(#[trigger] ds[q]),
                        acc == digits_val(ds.subrange(0, p - (k + 1))),
                    decreases de - p,
                {
                    let ghost m = p - (k + 1);
                    proof {
                        assert(ds.subrange(0, m + 1).drop_last() =~= ds.subrange(0, m));
                        assert(ds.subrange(0, m + 1).last() == ds[m]);
                        assert(ds[m] == s@[p as int]);
                        lemma_digits_val_nonneg_pub(ds.subrange(0, m));
                        assert(digits_val(ds.subrange(0, m + 1)) == acc * 10 + digit_val(ds[m]));
                    }
                    proof {
                        assert(is_digit(s@[p as int]));
                    }
                    let d: u32 = (s[p] as u32) - 48;
                    if acc > 0xFFFF_FFFF_FFFF_FFFFu64 / 10 || (d as u64) > 0xFFFF_FFFF_FFFF_FFFFu64
                        - acc * 10 {
                        proof {
                            lemma_digits_val_prefix(ds, m + 1);
                            assert(!token_fits(tok));
                            assert(scan(s@, 0).len() == toks.len() + 1 + scan(s@, de as int).len());
                            assert(scan(s@, 0)[toks.len() as int] == tok);
                            assert(!all_fit(scan(s@, 0)));
                        }
                        return Err(BackupError::ProtocolViolation);
                    }
                    acc = acc * 10 + (d as u64);
                    p += 1;
                }
                proof {
                    assert(ds.subrange(0, de - (k + 1)) =~= ds);
                }
                // The path characters.
                let mut path: Vec<char> = Vec::new();
                let mut q: usize = i + 1;
                while q < k
                    invariant
                        n == s@.len(),
                        i + 1 <= q <= k <= n,
                        path@ == s@.subrange(i as int + 1, q as int),
                    decreases k - q,
                {
                    path.push(s[q]);
                    proof {
                        assert(s@.subrange(i as int + 1, q as int).push(s@[q as int]) =~= s@
                            .subrange(i as int + 1, q as int + 1));
                    }
                    q += 1;
                }
                out.push(FileEntry { path, size: acc });
                proof {
                    toks = toks.push(tok);
                    assert(scan(s@, 0) =~= toks + scan(s@, de as int));
                }
                i = de;
            } else {
                proof {
                    assert(scan(s@, i as int) == scan(s@, we as int));
                    assert(scan(s@, 0) =~= toks + scan(s@, we as int));
                }
                i = we;
            }
        } else {
            proof {
                assert(scan(s@, i as int) == scan(s@, i as int + 1));
            }
            i += 1;
        }
    }
    proof {
        assert(scan(s@, 0) =~= toks);
    }
    Ok(out)
}

proof fn lemma_best_colon_none(s: Seq<char>, w: int, j: int, we: int)
    requires
        w <= j,
        forall|q: int| w < q < j ==> !splits_at(s, w, q, we),
    ensures
        best_colon(s, w, j, we) == -1,
    decreases j - w,
{
    if j > w + 1 {
        lemma_best_colon_none(s, w, j - 1, we);
    }
}

/// The decimal digits of `n`, most significant first, without leading zeros.
pub open spec fn digits_of(n: int) -> Seq<char>
    decreases n,
    when n >= 0
{
    if n < 10 {
        seq![digit_char_of(n)]
    } else {
        digits_of(n / 10) + seq![digit_char_of(n % 10)]
    }
}

pub proof fn lemma_digits_of(n: int)
    requires
        0 <= n,
    ensures
        digits_of(n).len() >= 1,
        forall|i: int| 0 <= i < digits_of(n).len() ==> is_digit(#[trigger] digits_of(n)[i]),
        digits_val(digits_of(n)) == n,
        n >= 1 ==> is_pos_digit(digits_of(n)[0]),
    decreases n,
{
    if n < 10 {
        let ds = digits_of(n);
        assert(ds == seq![digit_char_of(n)]);
        assert(ds.len() == 1 && ds.last() == digit_char_of(n));
        assert(ds.drop_last() =~= Seq::<char>::empty());
        assert(digits_val(ds.drop_last()) == 0);
        assert(digits_val(ds) == 0 * 10 + digit_val(digit_char_of(n)));
    } else {
        lemma_digits_of(n / 10);
        let a = digits_of(n / 10);
        let c = digit_char_of(n % 10);
        let ds = digits_of(n);
        assert(ds =~= a + seq![c]);
        assert(ds.drop_last() =~= a);
        assert(ds.last() == c);
        assert(digits_val(ds) == digits_val(a) * 10 + digit_val(c));
        assert(digits_val(ds) == (n / 10) * 10 + n % 10);
        assert(forall|i: int| 0 <= i < ds.len() ==> is_digit(#[trigger] ds[i])) by {
            assert(forall|i: int| 0 <= i < a.len() ==> ds[i] == a[i]);
            assert(ds[ds.len() - 1] == c);
        }
    }
}

/// The serialized text of one entry: a space, the path, a colon, the size.
pub open spec fn token_str(path: Seq<char>, size: int) -> Seq<char> {
    seq![' '] + path + seq![':'] + digits_of(size)
}

/// An entry whose serialized form parses back: nonempty whitespace-free
/// path and a positive size within 64 bits.
pub open spec fn wf_entry(path: Seq<char>, size: int) -> bool {
    &&& path.len() > 0
    &&& forall|i: int| 0 <= i < path.len() ==> !is_wsp(path[i])
    &&& 1 <= size <= u64::MAX
}

/// The serialized text of a whole entry list.
pub open spec fn serialize_spec(es: Seq<(Seq<char>, int)>) -> Seq<char>
    decreases es.len(),
{
    if es.len() == 0 {
        Seq::empty()
    } else {
        token_str(es[0].0, es[0].1) + serialize_spec(es.drop_first())
    }
}

/// The spec-level content of parsed entries.
pub open spec fn entries_repr(v: Seq<FileEntry>) -> Seq<(Seq<char>, int)> {
    v.map_values(|e: FileEntry| (e.path@, e.size as int))
}

proof fn lemma_serialize_snoc(es: Seq<(Seq<char>, int)>, x: (Seq<char>, int))
    ensures
        serialize_spec(es.push(x)) == serialize_spec(es) + token_str(x.0, x.1),
    decreases es.len(),
{
    if es.len() == 0 {
        assert(es.push(x)[0] == x);
        assert(es.push(x).drop_first() =~= Seq::<(Seq<char>, int)>::empty());
        assert(serialize_spec(Seq::<(Seq<char>, int)>::empty()) == Seq::<char>::empty());
        assert(serialize_spec(es.push(x)) == token_str(x.0, x.1) + serialize_spec(
            es.push(x).drop_first(),
        ));
        assert(es =~= Seq::<(Seq<char>, int)>::empty());
        assert(token_str(x.0, x.1) + Seq::<char>::empty() =~= Seq::<char>::empty() + token_str(
            x.0,
            x.1,
        ));
    } else {
        assert(es.push(x).drop_first() =~= es.drop_first().push(x));
        lemma_serialize_snoc(es.drop_first(), x);
        assert(es.push(x)[0] == es[0]);
        let a = token_str(es[0].0, es[0].1);
        let b = serialize_spec(es.drop_first());
        let c = token_str(x.0, x.1);
        assert(serialize_spec(es.push(x)) == a + (b + c));
        assert(a + (b + c) =~= (a + b) + c);
    }
}

fn push_digits(n: u64, out: &mut Vec<char>)
    ensures
        final(out)@ == old(out)@ + digits_of(n as int),
    decreases n,
{
    if n < 10 {
        out.push(((n as u8) + 48) as char);
        assert(old(out)@.push(digit_char_of(n as int)) =~= old(out)@ + digits_of(n as int));
    } else {
        push_digits(n / 10, out);
        out.push((((n % 10) as u8) + 48) as char);
        assert((old(out)@ + digits_of(n as int / 10)).push(digit_char_of(n as int % 10)) =~= old(
            out,
        )@ + digits_of(n as int));
    }
}

/// Serializes entries back to protocol text, one ` path:size` token each.
pub fn serialize_file_list(v: &Vec<FileEntry>) -> (r: Vec<char>)
    ensures
        r@ == serialize_spec(entries_repr(v@)),
{
    let mut r: Vec<char> = Vec::new();
    let mut i: usize = 0;
    proof {
        assert(entries_repr(v@).subrange(0, 0) =~= Seq::<(Seq<char>, int)>::empty());
    }
    while i < v.len()
        invariant
            i <= v@.len(),
            r@ == serialize_spec(entries_repr(v@).subrange(0, i as int)),
        decreases v@.len() - i,
    {
        let ghost done = entries_repr(v@).subrange(0, i as int);
        r.push(' ');
        crate::chars::extend(&mut r, &v[i].path);
        r.push(':');
        push_digits(v[i].size, &mut r);
        proof {
            let x = entries_repr(v@)[i as int];
            lemma_serialize_snoc(done, x);
            assert(done.push(x) =~= entries_repr(v@).subrange(0, i as int + 1));
            assert(r@ =~= serialize_spec(done) + token_str(x.0, x.1));
        }
        i += 1;
    }
    proof {
        assert(entries_repr(v@).subrange(0, v@.len() as int) =~= entries_repr(v@));
    }
    r
}

proof fn lemma_digit_not_wsp(c: char)
    requires
        is_digit(c),
    ensures
        !is_wsp(c),
        c != ':',
        c != ' ',
{
}

proof fn lemma_scan_serialized(s: Seq<char>, i: int, es: Seq<(Seq<char>, int)>)
    requires
        0 <= i <= s.len(),
        s.subrange(i, s.len() as int) == serialize_spec(es),
        forall|t: int| 0 <= t < es.len() ==> wf_entry((#[trigger] es[t]).0, es[t].1),
    ensures
        ({
            let ts = scan(s, i);
            &&& ts.len() == es.len()
            &&& forall|t: int|
                0 <= t < es.len() ==> (#[trigger] ts[t]).path == es[t].0 && ts[t].digits
                    == digits_of(es[t].1)
        }),
    decreases es.len(),
{
    let r = s.subrange(i, s.len() as int);
    if es.len() == 0 {
        assert(r.len() == 0);
        assert(scan(s, i) =~= Seq::<Token>::empty());
    } else {
        let p = es[0].0;
        let sz = es[0].1;
        let ds = digits_of(sz);
        lemma_digits_of(sz);
        let kk = i + 1 + p.len();
        let e = kk + 1 + ds.len();
        let tail = es.drop_first();
        assert(wf_entry(p, sz));
        assert(r == token_str(p, sz) + serialize_spec(tail));
        assert(token_str(p, sz).len() == 2 + p.len() + ds.len());
        assert(e - i == token_str(p, sz).len());
        assert(e <= s.len());
        // Character layout of the head token.
        let u = seq![' '] + p + seq![':'] + ds;
        assert(s[i] == ' ') by {
            assert(r[0] == u[0]);
            assert(s[i] == r[0]);
        }
        assert forall|q: int| i <= q < e implies #[trigger] s[q] == u[q - i] by {
            assert(s[q] == r[q - i]);
            assert(r[q - i] == u[q - i]);
        }
        assert(s[kk] == ':') by {
            assert(u[kk - i] == ':');
        }
        assert forall|q: int| kk + 1 <= q < e implies is_digit(#[trigger] s[q]) by {
            assert(s[q] == u[q - i]);
            assert(u[q - i] == ds[q - kk - 1]);
            assert(is_digit(ds[q - kk - 1]));
        }
        assert(s.subrange(e, s.len() as int) =~= serialize_spec(tail)) by {
            assert forall|t: int| 0 <= t < s.len() - e implies s.subrange(e, s.len() as int)[t]
                == serialize_spec(tail)[t] by {
                assert(s.subrange(e, s.len() as int)[t] == s[e + t]);
                assert(s[e + t] == r[e - i + t]);
                assert(r[e - i + t] == serialize_spec(tail)[e - i + t - u.len()]);
            }
        }
        // Word and split structure.
        assert forall|q: int| i + 1 <= q < e implies !is_wsp(#[trigger] s[q]) by {
            assert(s[q] == u[q - i]);
            if q < kk {
                assert(u[q - i] == p[q - i - 1]);
                assert(!is_wsp(p[q - i - 1]));
            } else if q == kk {
                assert(s[q] == ':');
            } else {
                lemma_digit_not_wsp(s[q]);
            }
        }
        assert(e == s.len() || is_wsp(s[e])) by {
            if e < s.len() {
                assert(serialize_spec(tail)[0] == ' ');
                assert(s.subrange(e, s.len() as int)[0] == s[e]);
            }
        }
        lemma_word_end_is(s, i + 1, e);
        assert(splits_at(s, i + 1, kk, e)) by {
            assert(s[kk + 1] == u[kk + 1 - i]);
            assert(u[kk + 1 - i] == ds[0]);
        }
        let w = i + 1;
        assert forall|q: int| kk < q < e implies !#[trigger] splits_at(s, w, q, e) by {
            lemma_digit_not_wsp(s[q]);
        }
        lemma_best_colon_is(s, w, e, e, kk);
        assert(e == s.len() || !is_digit(s[e])) by {
            if e < s.len() {
                if is_digit(s[e]) {
                    lemma_digit_not_wsp(s[e]);
                }
            }
        }
        lemma_digit_run_end_is(s, kk + 2, e);
        // The head token is scanned, then the tail by induction.
        let tok = Token { path: s.subrange(i + 1, kk), digits: s.subrange(kk + 1, e) };
        assert(s[i] == ' ' && i + 1 < s.len() && !is_wsp(s[i + 1]));
        assert(scan(s, i) =~= seq![tok] + scan(s, e));
        assert(tok.path =~= p) by {
            assert forall|t: int| 0 <= t < p.len() implies tok.path[t] == p[t] by {
                assert(tok.path[t] == s[i + 1 + t]);
                assert(s[i + 1 + t] == u[t + 1]);
            }
        }
        assert(tok.digits =~= ds) by {
            assert forall|t: int| 0 <= t < ds.len() implies tok.digits[t] == ds[t] by {
                assert(tok.digits[t] == s[kk + 1 + t]);
                assert(s[kk + 1 + t] == u[kk + 1 + t - i]);
            }
        }
        lemma_scan_serialized(s, e, tail);
        assert(scan(s, i).len() == es.len());
        assert(forall|t: int|
            0 <= t < es.len() ==> (#[trigger] scan(s, i)[t]).path == es[t].0 && scan(s, i)[t].digits
                == digits_of(es[t].1)) by {
            assert(forall|t: int| 1 <= t < es.len() ==> scan(s, i)[t] == scan(s, e)[t - 1]);
            assert(forall|t: int| 1 <= t < es.len() ==> tail[t - 1] == es[t]);
            assert(scan(s, i)[0] == tok);
        }
    }
}

/// Round trip: serializing well-formed entries as ` path:size` tokens and
/// scanning the text again yields the same entries, in the same order.
pub proof fn lemma_file_list_round_trip(es: Seq<(Seq<char>, int)>)
    requires
        forall|t: int| 0 <= t < es.len() ==> wf_entry((#[trigger] es[t]).0, es[t].1),
    ensures
        ({
            let ts = scan(serialize_spec(es), 0);
            &&& all_fit(ts)
            &&& ts.len() == es.len()
            &&& forall|t: int|
                0 <= t < es.len() ==> (#[trigger] ts[t]).path == es[t].0 && digits_val(ts[t].digits)
                    == es[t].1
        }),
{
    let s = serialize_spec(es);
    assert(s.subrange(0, s.len() as int) =~= s);
    lemma_scan_serialized(s, 0, es);
    let ts = scan(s, 0);
    assert forall|t: int| 0 <= t < es.len() implies digits_val((#[trigger] ts[t]).digits)
        == es[t].1 by {
        lemma_digits_of(es[t].1);
    }
    assert(all_fit(ts)) by {
        assert(forall|t: int| 0 <= t < ts.len() ==> token_fits(#[trigger] ts[t]));
    }
}

} // verus!
