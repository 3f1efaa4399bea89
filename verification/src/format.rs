//! Human-readable rendering of sizes, speeds, durations, torrent states,
//! torrent listings, and the splitting of long replies into message-sized
//! chunks.
use vstd::prelude::*;
use vstd::arithmetic::div_mod::lemma_div_denominator;
use vstd::arithmetic::div_mod::lemma_fundamental_div_mod;
use vstd::seq_lib::lemma_flatten_concat;
use crate::qb::{TorrentInfo, float_rank, rank_of_bits};
use crate::text::{
    blen, blen_of, char_len_utf8, char_width, chars_of, dec, dec2, digit_char, has_suffix, lemma_blen_add,
    lemma_blen_is_encoded_len, lemma_blen_single, matches_at, occurs_at, push_char, push_dec,
    push_dec2, push_str, str_eq, string_of,
};

verus! {

// ---------------------------------------------------------------------------
// Sizes
// ---------------------------------------------------------------------------

/// The power of two by which an integer is scaled down to fit the 53
/// significant bits of an IEEE 754 double.
pub open spec fn f64_scale(n: nat) -> nat
    decreases n,
{
    if n < 0x20_0000_0000_0000 {
        1
    } else {
        2 * f64_scale(n / 2)
    }
}

/// The value of `n as f64`: `n` rounded to 53 significant bits, ties to even.
pub open spec fn f64_value(n: nat) -> nat {
    let p = f64_scale(n);
    let q = n / p;
    let r = n % p;
    if 2 * r > p || (2 * r == p && q % 2 == 1) {
        (q + 1) * p
    } else {
        q * p
    }
}

/// Index into the units `B, KB, MB, GB, TB, PB` chosen for a value: the
/// largest power of 1024 (at most the fifth) that does not exceed it.
pub open spec fn unit_index(f: nat) -> nat {
    if f < 0x400 {
        0
    } else if f < 0x10_0000 {
        1
    } else if f < 0x4000_0000 {
        2
    } else if f < 0x100_0000_0000 {
        3
    } else if f < 0x4_0000_0000_0000 {
        4
    } else {
        5
    }
}

/// `1024` to the power `i`.
pub open spec fn unit_divisor(i: nat) -> nat {
    if i == 0 {
        1
    } else if i == 1 {
        0x400
    } else if i == 2 {
        0x10_0000
    } else if i == 3 {
        0x4000_0000
    } else if i == 4 {
        0x100_0000_0000
    } else {
        0x4_0000_0000_0000
    }
}

/// The name of unit `i`.
pub open spec fn unit_name(i: nat) -> Seq<char> {
    if i == 0 {
        "B"@
    } else if i == 1 {
        "KB"@
    } else if i == 2 {
        "MB"@
    } else if i == 3 {
        "GB"@
    } else if i == 4 {
        "TB"@
    } else {
        "PB"@
    }
}

/// `num / den` rounded to the nearest integer, ties to even.
pub open spec fn div_round_even(num: nat, den: nat) -> nat {
    let q = num / den;
    let r = num % den;
    if 2 * r > den || (2 * r == den && q % 2 == 1) {
        q + 1
    } else {
        q
    }
}

/// A value in tenths rendered with one decimal place (`{:.1}`).
pub open spec fn tenths_text(t: nat) -> Seq<char> {
    dec(t / 10) + seq!['.', digit_char(t % 10)]
}

/// What `fmt_size` returns for `bytes`: the byte count as a double, scaled
/// down by 1024 at most five times while it is at least 1024, rendered with
/// one decimal place (rounded half to even) and the unit.
pub open spec fn size_text(bytes: nat) -> Seq<char> {
    let f = f64_value(bytes);
    let i = unit_index(f);
    tenths_text(div_round_even(f * 10, unit_divisor(i))) + " "@ + unit_name(i)
}

/// The value of `n as f64`, as an integer.
fn f64_value_of(n: u64) -> (f: u128)
    ensures
        f == f64_value(n as nat),
{
    let mut q: u64 = n;
    let mut p: u64 = 1;
    while q >= 0x20_0000_0000_0000
        invariant
            p >= 1,
            q == n as nat / p as nat,
            f64_scale(n as nat) == p * f64_scale(q as nat),
            p * q <= n,
        decreases q,
    {
        proof {
            lemma_div_denominator(n as int, p as int, 2);
            assert(p * 0x20_0000_0000_0000 <= p * q) by (nonlinear_arith)
                requires
                    q >= 0x20_0000_0000_0000,
                    p >= 1,
            ;
            assert(p * f64_scale(q as nat) == (p * 2) * f64_scale((q / 2) as nat)) by (
            nonlinear_arith)
                requires
                    f64_scale(q as nat) == 2 * f64_scale((q / 2) as nat),
            ;
            assert((p * 2) * (q / 2) <= p * q) by (nonlinear_arith)
                requires
                    p >= 1,
            ;
        }
        q = q / 2;
        p = p * 2;
    }
    proof {
        assert(f64_scale(q as nat) == 1);
        assert(f64_scale(n as nat) == p) by (nonlinear_arith)
            requires
                f64_scale(n as nat) == p * f64_scale(q as nat),
                f64_scale(q as nat) == 1,
        ;
        lemma_fundamental_div_mod(n as int, p as int);
        assert(q * p <= n) by (nonlinear_arith)
            requires
                p * q <= n,
        ;
        assert(q * p == p * q) by (nonlinear_arith);
        lemma_f64_scale_small(n as nat);
        lemma_f64_scale_bound(n as nat);
        assert((q + 1) * p <= 0x2_0000_0000_0000_0000) by (nonlinear_arith)
            requires
                q < 0x20_0000_0000_0000,
                p < 0x1000,
        ;
    }
    let r: u64 = n - q * p;
    proof {
        assert(r == n as nat % p as nat);
    }
    let up = (r as u128) * 2 > p as u128 || ((r as u128) * 2 == p as u128 && q % 2 == 1);
    if up {
        (q as u128 + 1) * (p as u128)
    } else {
        proof {
            assert(q * p <= (q + 1) * p) by (nonlinear_arith);
        }
        (q as u128) * (p as u128)
    }
}

/// Appends `t` tenths rendered with one decimal place.
fn push_tenths(s: &mut String, t: u128)
    requires
        t < 0x1_0000_0000_0000_0000,
    ensures
        final(s)@ == old(s)@ + tenths_text(t as nat),
{
    let whole = (t / 10) as u64;
    let frac = (t % 10) as u64;
    push_dec(s, whole);
    push_char(s, '.');
    push_dec(s, frac);
    proof {
        reveal_with_fuel(dec, 1);
        assert(dec((t % 10) as nat) =~= seq![digit_char((t % 10) as nat)]);
        assert(final(s)@ =~= old(s)@ + tenths_text(t as nat));
    }
}

/// Format byte count into human-readable string.
pub fn fmt_size(bytes: u64) -> (s: String)
    ensures
        s@ == size_text(bytes as nat),
{
    let f = f64_value_of(bytes);
    let (den, unit): (u128, &str) = if f < 0x400 {
        (1, "B")
    } else if f < 0x10_0000 {
        (0x400, "KB")
    } else if f < 0x4000_0000 {
        (0x10_0000, "MB")
    } else if f < 0x100_0000_0000 {
        (0x4000_0000, "GB")
    } else if f < 0x4_0000_0000_0000 {
        (0x100_0000_0000, "TB")
    } else {
        (0x4_0000_0000_0000, "PB")
    };
    proof {
        lemma_f64_value_bound(bytes as nat);
    }
    let num = f * 10;
    let q = num / den;
    let r = num % den;
    proof {
        if den == 0x4_0000_0000_0000 {
            assert(q <= 0x14_0000) by (nonlinear_arith)
                requires
                    q == num / den,
                    num <= 0x14_0000_0000_0000_0000,
                    den == 0x4_0000_0000_0000,
            ;
        } else {
            assert(q < 10240) by (nonlinear_arith)
                requires
                    q == num / den,
                    num == f * 10,
                    f < 1024 * den,
                    den >= 1,
            ;
        }
    }
    let t = if r * 2 > den || (r * 2 == den && q % 2 == 1) {
        q + 1
    } else {
        q
    };
    proof {
        assert(t == div_round_even(f as nat * 10, unit_divisor(unit_index(f as nat))));
    }
    let mut s = String::new();
    push_tenths(&mut s, t);
    push_str(&mut s, " ");
    push_str(&mut s, unit);
    proof {
        assert(s@ =~= size_text(bytes as nat));
    }
    s
}

proof fn lemma_f64_scale_bound(n: nat)
    ensures
        f64_scale(n) >= 1,
        n / f64_scale(n) < 0x20_0000_0000_0000,
        n >= 0x20_0000_0000_0000 ==> f64_scale(n) * 0x10_0000_0000_0000 <= n,
    decreases n,
{
    if n >= 0x20_0000_0000_0000 {
        let m = n / 2;
        lemma_f64_scale_bound(m);
        lemma_div_denominator(n as int, 2, f64_scale(m) as int);
        assert(f64_scale(n) == 2 * f64_scale(m));
        if m >= 0x20_0000_0000_0000 {
            assert(2 * f64_scale(m) * 0x10_0000_0000_0000 <= 2 * m) by (nonlinear_arith)
                requires
                    f64_scale(m) * 0x10_0000_0000_0000 <= m,
            ;
        } else {
            assert(f64_scale(m) == 1);
        }
    }
}

proof fn lemma_f64_scale_small(n: nat)
    requires
        n < 0x1_0000_0000_0000_0000,
    ensures
        f64_scale(n) < 0x1000,
{
    lemma_f64_scale_bound(n);
    let p = f64_scale(n);
    assert(p < 0x1000) by (nonlinear_arith)
        requires
            n >= 0x20_0000_0000_0000 ==> p * 0x10_0000_0000_0000 <= n,
            n < 0x20_0000_0000_0000 ==> p == 1,
            n < 0x1_0000_0000_0000_0000,
    ;
}

proof fn lemma_f64_value_bound(n: nat)
    requires
        n < 0x1_0000_0000_0000_0000,
    ensures
        f64_value(n) <= 0x2_0000_0000_0000_0000,
{
    let p = f64_scale(n);
    lemma_f64_scale_bound(n);
    let q = n / p;
    lemma_f64_scale_small(n);
    assert((q + 1) * p <= 0x2_0000_0000_0000_0000) by (nonlinear_arith)
        requires
            q < 0x20_0000_0000_0000,
            p < 0x1000,
    ;
    assert(q * p <= (q + 1) * p) by (nonlinear_arith);
}

// ---------------------------------------------------------------------------
// Speeds and durations
// ---------------------------------------------------------------------------

/// What `fmt_speed` returns: `0 B/s` for zero, else the size text and `/s`.
pub open spec fn speed_text(bps: nat) -> Seq<char> {
    if bps == 0 {
        "0 B/s"@
    } else {
        size_text(bps) + "/s"@
    }
}

/// Format bytes-per-second as speed string.
pub fn fmt_speed(bps: u64) -> (s: String)
    ensures
        s@ == speed_text(bps as nat),
{
    if bps == 0 {
        return String::from_str("0 B/s");
    }
    let mut s = fmt_size(bps);
    push_str(&mut s, "/s");
    s
}

/// Eight million six hundred forty thousand seconds (100 days): from here on
/// an ETA is shown as infinite.
pub open spec fn eta_cap() -> int {
    8_640_000
}

/// What `fmt_eta` returns: `∞` unless `0 < seconds < 8640000`; otherwise
/// `H:MM:SS` when there is at least one hour, else `M:SS`.
pub open spec fn eta_text(seconds: int) -> Seq<char> {
    if seconds <= 0 || seconds >= eta_cap() {
        "∞"@
    } else {
        let h = seconds / 3600;
        let m = (seconds % 3600) / 60;
        let sec = seconds % 60;
        if h > 0 {
            dec(h as nat) + ":"@ + dec2(m as nat) + ":"@ + dec2(sec as nat)
        } else {
            dec(m as nat) + ":"@ + dec2(sec as nat)
        }
    }
}

/// Format ETA seconds into H:MM:SS or "∞".
pub fn fmt_eta(seconds: i64) -> (s: String)
    ensures
        s@ == eta_text(seconds as int),
{
    if seconds <= 0 || seconds >= 8_640_000 {
        return String::from_str("∞");
    }
    let h = seconds / 3600;
    let m = (seconds % 3600) / 60;
    let sec = seconds % 60;
    let mut s = String::new();
    if h > 0 {
        push_dec(&mut s, h as u64);
        push_str(&mut s, ":");
        push_dec2(&mut s, m as u64);
        push_str(&mut s, ":");
        push_dec2(&mut s, sec as u64);
    } else {
        push_dec(&mut s, m as u64);
        push_str(&mut s, ":");
        push_dec2(&mut s, sec as u64);
    }
    assert(s@ =~= eta_text(seconds as int));
    s
}

// ---------------------------------------------------------------------------
// Torrent states
// ---------------------------------------------------------------------------

/// The status emoji of a qBittorrent state name.
pub open spec fn emoji_of(state: Seq<char>) -> Seq<char> {
    if state == "downloading"@ || state == "forcedDL"@ {
        "⏬"@
    } else if state == "uploading"@ || state == "forcedUP"@ {
        "⏫"@
    } else if state == "pausedDL"@ || state == "pausedUP"@ {
        "⏸️"@
    } else if state == "stoppedDL"@ || state == "stoppedUP"@ {
        "⏹️"@
    } else if state == "queuedDL"@ || state == "queuedUP"@ {
        "⏯️"@
    } else if state == "checkingDL"@ || state == "checkingUP"@ {
        "🔍"@
    } else if state == "error"@ {
        "❗"@
    } else if state == "missingFiles"@ {
        "⚠️"@
    } else if state == "stalledDL"@ || state == "stalledUP"@ {
        "⚙️"@
    } else if state == "metaDL"@ {
        "📡"@
    } else if state == "allocating"@ {
        "💾"@
    } else if state == "moving"@ {
        "📦"@
    } else {
        "❓"@
    }
}

/// Return the status emoji for a torrent state string.
pub fn state_emoji(state: &str) -> (e: &'static str)
    ensures
        e@ == emoji_of(state@),
{
    if str_eq(state, "downloading") || str_eq(state, "forcedDL") {
        "⏬"
    } else if str_eq(state, "uploading") || str_eq(state, "forcedUP") {
        "⏫"
    } else if str_eq(state, "pausedDL") || str_eq(state, "pausedUP") {
        "⏸️"
    } else if str_eq(state, "stoppedDL") || str_eq(state, "stoppedUP") {
        "⏹️"
    } else if str_eq(state, "queuedDL") || str_eq(state, "queuedUP") {
        "⏯️"
    } else if str_eq(state, "checkingDL") || str_eq(state, "checkingUP") {
        "🔍"
    } else if str_eq(state, "error") {
        "❗"
    } else if str_eq(state, "missingFiles") {
        "⚠️"
    } else if str_eq(state, "stalledDL") || str_eq(state, "stalledUP") {
        "⚙️"
    } else if str_eq(state, "metaDL") {
        "📡"
    } else if str_eq(state, "allocating") {
        "💾"
    } else if str_eq(state, "moving") {
        "📦"
    } else {
        "❓"
    }
}

// ---------------------------------------------------------------------------
// Splitting text into message-sized chunks
// ---------------------------------------------------------------------------

/// Index of the first occurrence of `sep` in `s` at or after `i`, or `-1`.
pub open spec fn find_from(s: Seq<char>, sep: Seq<char>, i: int) -> int
    decreases s.len() + 1 - i,
{
    if i < 0 || i + sep.len() > s.len() {
        -1
    } else if occurs_at(s, sep, i) {
        i
    } else {
        find_from(s, sep, i + 1)
    }
}

/// The pieces of `s` between non-overlapping occurrences of a non-empty
/// `sep`, found left to right (`str::split`).
pub open spec fn split_on(s: Seq<char>, sep: Seq<char>) -> Seq<Seq<char>>
    decreases s.len(),
{
    let j = find_from(s, sep, 0);
    if sep.len() == 0 || j < 0 || j + sep.len() > s.len() {
        seq![s]
    } else {
        seq![s.take(j)] + split_on(s.skip(j + sep.len()), sep)
    }
}

/// Number of leading characters of `s` whose encoding fits in `room` bytes.
pub open spec fn fit_prefix(s: Seq<char>, room: nat) -> nat
    decreases s.len(),
{
    if s.len() == 0 || char_width(s[0]) > room {
        0
    } else {
        1 + fit_prefix(s.drop_first(), (room - char_width(s[0])) as nat)
    }
}

/// `s` cut into consecutive pieces, each the longest run of characters from
/// where the last one ended whose encoding fits in `max` bytes.
pub open spec fn hard_split(s: Seq<char>, max: nat) -> Seq<Seq<char>>
    decreases s.len(),
{
    let k = fit_prefix(s, max);
    if s.len() == 0 || k == 0 {
        seq![]
    } else {
        proof {
            lemma_fit_prefix_bound(s, max);
        }
        seq![s.take(k as int)] + hard_split(s.skip(k as int), max)
    }
}

pub proof fn lemma_fit_prefix_bound(s: Seq<char>, room: nat)
    ensures
        fit_prefix(s, room) <= s.len(),
        blen(s.take(fit_prefix(s, room) as int)) <= room,
        fit_prefix(s, room) < s.len() ==> blen(s.take(fit_prefix(s, room) + 1int)) > room,
    decreases s.len(),
{
    if s.len() == 0 || char_width(s[0]) > room {
        assert(s.take(0) =~= Seq::<char>::empty());
        if s.len() > 0 {
            assert(s.take(1).drop_first() =~= Seq::<char>::empty());
            reveal_with_fuel(blen, 2);
        }
    } else {
        let t = s.drop_first();
        let r = (room - char_width(s[0])) as nat;
        lemma_fit_prefix_bound(t, r);
        let k = fit_prefix(t, r);
        assert(s.take(k + 1int).drop_first() =~= t.take(k as int));
        if k < t.len() {
            assert(s.take(k + 2int).drop_first() =~= t.take(k + 1int));
        }
    }
}

/// Chunks emitted so far, and the chunk being filled.
pub type ChunkState = (Seq<Seq<char>>, Seq<char>);

/// Taking in one line of a block too large for one chunk.
pub open spec fn line_step(st: ChunkState, line: Seq<char>, max: nat) -> ChunkState {
    let (chunks, cur) = st;
    let cand = if cur.len() == 0 {
        line
    } else {
        cur + seq!['\n'] + line
    };
    if blen(cand) <= max {
        (chunks, cand)
    } else {
        let chunks1 = if cur.len() > 0 {
            chunks.push(cur)
        } else {
            chunks
        };
        if blen(line) > max {
            (chunks1 + hard_split(line, max), seq![])
        } else {
            (chunks1, line)
        }
    }
}

/// Taking in the lines in order.
pub open spec fn line_fold(lines: Seq<Seq<char>>, st: ChunkState, max: nat) -> ChunkState
    decreases lines.len(),
{
    if lines.len() == 0 {
        st
    } else {
        line_step(line_fold(lines.drop_last(), st, max), lines.last(), max)
    }
}

/// Taking in one block (the text between blank-line separators).
pub open spec fn block_step(st: ChunkState, block: Seq<char>, max: nat) -> ChunkState {
    let (chunks, cur) = st;
    let cand = if cur.len() == 0 {
        block
    } else {
        cur + seq!['\n', '\n'] + block
    };
    if blen(cand) <= max {
        (chunks, cand)
    } else {
        let chunks1 = if cur.len() > 0 {
            chunks.push(cur)
        } else {
            chunks
        };
        if blen(block) > max {
            line_fold(split_on(block, seq!['\n']), (chunks1, seq![]), max)
        } else {
            (chunks1, block)
        }
    }
}

/// Taking in the blocks in order, from nothing.
pub open spec fn block_fold(blocks: Seq<Seq<char>>, max: nat) -> ChunkState
    decreases blocks.len(),
{
    if blocks.len() == 0 {
        (seq![], seq![])
    } else {
        block_step(block_fold(blocks.drop_last(), max), blocks.last(), max)
    }
}

/// What `chunk_text` returns: the text itself when its encoding fits in
/// `max` bytes; otherwise its blank-line-separated blocks packed greedily
/// into chunks, a block too large for a chunk packed line by line, and a line
/// too large cut at character boundaries.
pub open spec fn chunks_of(text: Seq<char>, max: nat) -> Seq<Seq<char>> {
    if blen(text) <= max {
        seq![text]
    } else {
        let st = block_fold(split_on(text, seq!['\n', '\n']), max);
        if st.1.len() > 0 {
            st.0.push(st.1)
        } else {
            st.0
        }
    }
}

/// Every character of `s` encodes in at most `max` bytes.
pub open spec fn chars_fit(s: Seq<char>, max: nat) -> bool {
    forall|i: int| 0 <= i < s.len() ==> char_width(#[trigger] s[i]) <= max
}

/// The views of a vector of character vectors.
pub open spec fn views(v: Seq<Vec<char>>) -> Seq<Seq<char>> {
    v.map_values(|x: Vec<char>| x@)
}

/// The views of a vector of strings.
pub open spec fn string_views(v: Seq<String>) -> Seq<Seq<char>> {
    v.map_values(|x: String| x@)
}

proof fn lemma_find_from(s: Seq<char>, sep: Seq<char>, i: int)
    requires
        0 <= i,
    ensures
        find_from(s, sep, i) == -1 || (i <= find_from(s, sep, i) && occurs_at(
            s,
            sep,
            find_from(s, sep, i),
        )),
        forall|k: int|
            i <= k < (if find_from(s, sep, i) == -1 {
                s.len() + 1int
            } else {
                find_from(s, sep, i)
            }) ==> !occurs_at(s, sep, k),
    decreases s.len() + 1 - i,
{
    if i + sep.len() > s.len() {
    } else if occurs_at(s, sep, i) {
    } else {
        lemma_find_from(s, sep, i + 1);
    }
}

proof fn lemma_find_from_is(s: Seq<char>, sep: Seq<char>, i: int, k: int)
    requires
        0 <= i <= k,
        forall|j: int| i <= j < k ==> !occurs_at(s, sep, j),
        occurs_at(s, sep, k) || k + sep.len() > s.len(),
    ensures
        find_from(s, sep, i) == (if occurs_at(s, sep, k) {
            k
        } else {
            -1
        }),
    decreases k - i,
{
    if i + sep.len() > s.len() {
        assert(!occurs_at(s, sep, k));
    } else if i < k {
        assert(!occurs_at(s, sep, i));
        lemma_find_from_is(s, sep, i + 1, k);
    }
}

/// The pieces of `v` between non-overlapping occurrences of `sep`.
fn split_vec(v: &Vec<char>, sep: &Vec<char>) -> (r: Vec<Vec<char>>)
    requires
        sep.len() > 0,
    ensures
        views(r@) == split_on(v@, sep@),
{
    let mut pieces: Vec<Vec<char>> = Vec::new();
    let mut start: usize = 0;
    let mut i: usize = 0;
    assert(v@.skip(0) =~= v@);
    assert(views(pieces@) =~= Seq::<Seq<char>>::empty());
    while i < v.len()
        invariant
            start <= i <= v.len(),
            sep.len() > 0,
            views(pieces@) + split_on(v@.skip(start as int), sep@) == split_on(v@, sep@),
            forall|k: int| start <= k < i ==> !occurs_at(v@, sep@, k),
        decreases v.len() - i,
    {
        if matches_at(v, i, sep) {
            let piece = slice_vec(v, start, i);
            proof {
                let t = v@.skip(start as int);
                assert forall|j: int| 0 <= j < i - start implies !occurs_at(t, sep@, j) by {
                    assert(t.subrange(j, j + sep@.len()) =~= v@.subrange(start + j, start + j
                        + sep@.len()));
                    assert(!occurs_at(v@, sep@, start + j));
                }
                assert(t.subrange(i - start, i - start + sep@.len()) =~= v@.subrange(
                    i as int,
                    i + sep@.len(),
                ));
                lemma_find_from_is(t, sep@, 0, i - start);
                assert(t.take(i - start) =~= piece@);
                assert(t.skip(i - start + sep@.len()) =~= v@.skip(i + sep@.len()));
                assert(views(pieces@.push(piece)) =~= views(pieces@).push(piece@));
                assert(views(pieces@).push(piece@) + split_on(v@.skip(i + sep@.len()), sep@)
                    =~= views(pieces@) + split_on(t, sep@));
            }
            pieces.push(piece);
            start = i + sep.len();
            i = start;
        } else {
            i = i + 1;
        }
    }
    let last = slice_vec(v, start, v.len());
    proof {
        let t = v@.skip(start as int);
        assert forall|j: int| 0 <= j < t.len() + 1 implies !occurs_at(t, sep@, j) by {
            if j + sep@.len() <= t.len() {
                assert(t.subrange(j, j + sep@.len()) =~= v@.subrange(start + j, start + j
                    + sep@.len()));
                assert(!occurs_at(v@, sep@, start + j));
            }
        }
        lemma_find_from_is(t, sep@, 0, t.len() as int + 1);
        assert(last@ =~= t);
        assert(views(pieces@.push(last)) =~= views(pieces@).push(last@));
        assert(split_on(t, sep@) =~= seq![t]);
    }
    pieces.push(last);
    pieces
}

/// A copy of `v[lo..hi]`.
fn slice_vec(v: &Vec<char>, lo: usize, hi: usize) -> (r: Vec<char>)
    requires
        lo <= hi <= v.len(),
    ensures
        r@ == v@.subrange(lo as int, hi as int),
{
    let mut r: Vec<char> = Vec::new();
    let mut i = lo;
    while i < hi
        invariant
            lo <= i <= hi <= v.len(),
            r@ == v@.subrange(lo as int, i as int),
        decreases hi - i,
    {
        r.push(v[i]);
        assert(r@ =~= v@.subrange(lo as int, i + 1));
        i = i + 1;
    }
    r
}

/// Appends `src` to `dst`.
fn extend_vec(dst: &mut Vec<char>, src: &Vec<char>)
    ensures
        final(dst)@ == old(dst)@ + src@,
{
    let ghost d0 = dst@;
    let mut i: usize = 0;
    while i < src.len()
        invariant
            i <= src.len(),
            dst@ == d0 + src@.take(i as int),
        decreases src.len() - i,
    {
        dst.push(src[i]);
        assert(dst@ =~= d0 + src@.take(i + 1));
        i = i + 1;
    }
    assert(src@.take(src.len() as int) =~= src@);
}

/// A `String` holding the characters of `v`.
fn string_from(v: &Vec<char>) -> (s: String)
    ensures
        s@ == v@,
{
    let s = string_of(v, 0, v.len());
    assert(v@.subrange(0, v.len() as int) =~= v@);
    s
}

proof fn lemma_split_chars_fit(s: Seq<char>, sep: Seq<char>, max: nat)
    requires
        chars_fit(s, max),
    ensures
        forall|i: int|
            0 <= i < split_on(s, sep).len() ==> chars_fit(#[trigger] split_on(s, sep)[i], max),
    decreases s.len(),
{
    let j = find_from(s, sep, 0);
    if sep.len() == 0 || j < 0 || j + sep.len() > s.len() {
    } else {
        lemma_find_from(s, sep, 0);
        let rest = s.skip(j + sep.len());
        assert(chars_fit(rest, max)) by {
            assert forall|i: int| 0 <= i < rest.len() implies char_width(#[trigger] rest[i])
                <= max by {
                assert(rest[i] == s[i + j + sep.len()]);
            }
        }
        assert(chars_fit(s.take(j), max)) by {
            assert forall|i: int| 0 <= i < s.take(j).len() implies char_width(
                #[trigger] s.take(j)[i],
            ) <= max by {
                assert(s.take(j)[i] == s[i]);
            }
        }
        lemma_split_chars_fit(rest, sep, max);
        let pieces = split_on(s, sep);
        assert forall|i: int| 0 <= i < pieces.len() implies chars_fit(#[trigger] pieces[i], max) by {
            if i > 0 {
                assert(pieces[i] == split_on(rest, sep)[i - 1]);
            }
        }
    }
}

/// Number of characters of `v[start..]` whose encoding fits in `room` bytes.
fn fit_count(v: &Vec<char>, start: usize, room: usize) -> (k: usize)
    requires
        start <= v.len(),
    ensures
        k == fit_prefix(v@.skip(start as int), room as nat),
        start + k <= v.len(),
{
    let ghost t = v@.skip(start as int);
    let mut j = start;
    let mut left = room;
    assert(t.skip(0) =~= t);
    while j < v.len() && char_len_utf8(v[j]) <= left
        invariant
            t == v@.skip(start as int),
            start <= j <= v.len(),
            left <= room,
            fit_prefix(t, room as nat) == (j - start) + fit_prefix(
                t.skip(j - start),
                left as nat,
            ),
        decreases v.len() - j,
    {
        proof {
            let u = t.skip(j - start);
            assert(u[0] == v@[j as int]);
            assert(u.drop_first() =~= t.skip(j - start + 1));
        }
        left = left - char_len_utf8(v[j]);
        j = j + 1;
    }
    proof {
        let u = t.skip(j - start);
        if j < v.len() {
            assert(u[0] == v@[j as int]);
        } else {
            assert(u.len() == 0);
        }
    }
    j - start
}

/// Appends the pieces of `hard_split(line, max)` to `chunks`.
fn push_hard_split(chunks: &mut Vec<String>, line: &Vec<char>, max: usize)
    requires
        chars_fit(line@, max as nat),
    ensures
        string_views(final(chunks)@) == string_views(old(chunks)@) + hard_split(
            line@,
            max as nat,
        ),
{
    let ghost c0 = string_views(chunks@);
    let mut start: usize = 0;
    assert(line@.skip(0) =~= line@);
    assert(c0 + hard_split(line@, max as nat) =~= string_views(chunks@) + hard_split(
        line@.skip(0),
        max as nat,
    ));
    while start < line.len()
        invariant
            start <= line.len(),
            chars_fit(line@, max as nat),
            string_views(chunks@) + hard_split(line@.skip(start as int), max as nat) == c0
                + hard_split(line@, max as nat),
        decreases line.len() - start,
    {
        let k = fit_count(line, start, max);
        let ghost t = line@.skip(start as int);
        proof {
            assert(t[0] == line@[start as int]);
            assert(char_width(line@[start as int]) <= max);
            assert(k >= 1);
        }
        let piece = string_of(line, start, start + k);
        proof {
            assert(piece@ =~= t.take(k as int));
            assert(t.skip(k as int) =~= line@.skip(start + k));
            assert(string_views(chunks@.push(piece)) =~= string_views(chunks@).push(piece@));
            assert(hard_split(t, max as nat) == seq![t.take(k as int)] + hard_split(
                t.skip(k as int),
                max as nat,
            ));
            assert(string_views(chunks@).push(piece@) + hard_split(t.skip(k as int), max as nat)
                =~= string_views(chunks@) + hard_split(t, max as nat));
        }
        chunks.push(piece);
        start = start + k;
    }
    proof {
        assert(line@.skip(start as int).len() == 0);
        assert(hard_split(line@.skip(start as int), max as nat) =~= Seq::<Seq<char>>::empty());
        assert(string_views(chunks@) =~= string_views(chunks@) + hard_split(
            line@.skip(start as int),
            max as nat,
        ));
    }
}

/// Packs the lines of an oversized block, after `chunks`; returns the chunk
/// being filled when the lines run out.
fn pack_lines(chunks: &mut Vec<String>, lines: &Vec<Vec<char>>, max: usize) -> (cur: Vec<char>)
    requires
        forall|i: int| 0 <= i < lines.len() ==> chars_fit(#[trigger] lines@[i]@, max as nat),
    ensures
        (string_views(final(chunks)@), cur@) == line_fold(
            views(lines@),
            (string_views(old(chunks)@), seq![]),
            max as nat,
        ),
        blen(cur@) <= max,
{
    let ghost st0: ChunkState = (string_views(chunks@), seq![]);
    let mut cur: Vec<char> = Vec::new();
    let mut cur_len: u128 = 0;
    let mut i: usize = 0;
    assert(views(lines@).take(0) =~= Seq::<Seq<char>>::empty());
    while i < lines.len()
        invariant
            i <= lines.len(),
            forall|k: int| 0 <= k < lines.len() ==> chars_fit(#[trigger] lines@[k]@, max as nat),
            (string_views(chunks@), cur@) == line_fold(
                views(lines@).take(i as int),
                st0,
                max as nat,
            ),
            cur_len == blen(cur@),
            cur_len <= max,
        decreases lines.len() - i,
    {
        let line = &lines[i];
        let ghost before: ChunkState = (string_views(chunks@), cur@);
        proof {
            assert(views(lines@).take(i + 1).drop_last() =~= views(lines@).take(i as int));
            assert(views(lines@).take(i + 1).last() == line@);
        }
        let line_len = blen_of(line, 0, line.len());
        proof {
            assert(line@.subrange(0, line.len() as int) =~= line@);
        }
        let cand_len = if cur.len() == 0 {
            line_len
        } else {
            cur_len + 1 + line_len
        };
        proof {
            if cur.len() > 0 {
                lemma_blen_add(cur@ + seq!['\n'], line@);
                lemma_blen_add(cur@, seq!['\n']);
                lemma_blen_single('\n');
            }
        }
        if cand_len <= max as u128 {
            if cur.len() > 0 {
                cur.push('\n');
            }
            extend_vec(&mut cur, line);
            cur_len = cand_len;
        } else {
            if cur.len() > 0 {
                let done = string_from(&cur);
                proof {
                    assert(string_views(chunks@.push(done)) =~= string_views(chunks@).push(cur@));
                }
                chunks.push(done);
            }
            if line_len > max as u128 {
                push_hard_split(chunks, line, max);
                cur = Vec::new();
                cur_len = 0;
            } else {
                cur = slice_vec(line, 0, line.len());
                cur_len = line_len;
            }
        }
        proof {
            assert((string_views(chunks@), cur@) == line_step(before, line@, max as nat));
        }
        i = i + 1;
    }
    proof {
        assert(views(lines@).take(lines.len() as int) =~= views(lines@));
    }
    cur
}

/// Split text into chunks that fit within Telegram's 4096-char message limit.
/// Splits on double-newlines first (torrent entry boundaries), then single newlines,
/// then hard-splits at character boundaries to avoid breaking UTF-8 sequences.
pub fn chunk_text(text: &str, max_len: usize) -> (chunks: Vec<String>)
    requires
        chars_fit(text@, max_len as nat),
    ensures
        string_views(chunks@) == chunks_of(text@, max_len as nat),
        forall|i: int| 0 <= i < chunks.len() ==> blen(#[trigger] chunks@[i]@) <= max_len,
        text@.len() > 0 ==> forall|i: int|
            0 <= i < chunks.len() ==> (#[trigger] chunks@[i]@).len() > 0,
        forall|i: int|
            0 <= i < chunks.len() ==> vstd::utf8::encode_utf8(#[trigger] chunks@[i]@).len()
                <= max_len,
        strip_nl(string_views(chunks@).flatten()) == strip_nl(text@),
        pieces_of(string_views(chunks@), text@),
{
    proof {
        lemma_chunks_fit(text@, max_len as nat);
        lemma_chunks_keep_text(text@, max_len as nat);
        lemma_chunks_are_pieces(text@, max_len as nat);
    }
    let v = chars_of(text);
    let total = blen_of(&v, 0, v.len());
    proof {
        assert(v@.subrange(0, v.len() as int) =~= v@);
    }
    if total <= max_len as u128 {
        let whole = String::from_str(text);
        let r = vec![whole];
        assert(string_views(r@) =~= seq![text@]);
        proof {
            assert forall|i: int| 0 <= i < r.len() implies #[trigger] r@[i]@ == string_views(
                r@,
            )[i] by {}
            lemma_blen_is_encoded_len(text@);
        }
        return r;
    }
    let sep = vec!['\n', '\n'];
    let nl = vec!['\n'];
    let blocks = split_vec(&v, &sep);
    proof {
        lemma_split_chars_fit(v@, sep@, max_len as nat);
    }
    let mut chunks: Vec<String> = Vec::new();
    let mut cur: Vec<char> = Vec::new();
    let mut cur_len: u128 = 0;
    let mut i: usize = 0;
    assert(views(blocks@).take(0) =~= Seq::<Seq<char>>::empty());
    assert(string_views(chunks@) =~= Seq::<Seq<char>>::empty());
    while i < blocks.len()
        invariant
            i <= blocks.len(),
            views(blocks@) == split_on(v@, seq!['\n', '\n']),
            forall|k: int|
                0 <= k < views(blocks@).len() ==> chars_fit(
                    #[trigger] views(blocks@)[k],
                    max_len as nat,
                ),
            nl@ == seq!['\n'],
            (string_views(chunks@), cur@) == block_fold(
                views(blocks@).take(i as int),
                max_len as nat,
            ),
            cur_len == blen(cur@),
            cur_len <= max_len,
        decreases blocks.len() - i,
    {
        let block = &blocks[i];
        let ghost before: ChunkState = (string_views(chunks@), cur@);
        proof {
            assert(views(blocks@).take(i + 1).drop_last() =~= views(blocks@).take(i as int));
            assert(views(blocks@).take(i + 1).last() == block@);
            assert(views(blocks@)[i as int] == block@);
        }
        let block_len = blen_of(block, 0, block.len());
        proof {
            assert(block@.subrange(0, block.len() as int) =~= block@);
        }
        let cand_len = if cur.len() == 0 {
            block_len
        } else {
            cur_len + 2 + block_len
        };
        proof {
            if cur.len() > 0 {
                lemma_blen_add(cur@ + seq!['\n', '\n'], block@);
                lemma_blen_add(cur@, seq!['\n', '\n']);
                lemma_blen_add(seq!['\n'], seq!['\n']);
                assert(seq!['\n'] + seq!['\n'] =~= seq!['\n', '\n']);
                lemma_blen_single('\n');
            }
        }
        if cand_len <= max_len as u128 {
            if cur.len() > 0 {
                cur.push('\n');
                cur.push('\n');
            }
            extend_vec(&mut cur, block);
            cur_len = cand_len;
            proof {
                assert(before.1.len() > 0 ==> cur@ =~= before.1 + seq!['\n', '\n'] + block@);
            }
        } else {
            if cur.len() > 0 {
                let done = string_from(&cur);
                proof {
                    assert(string_views(chunks@.push(done)) =~= string_views(chunks@).push(cur@));
                }
                chunks.push(done);
            }
            if block_len > max_len as u128 {
                let lines = split_vec(block, &nl);
                proof {
                    lemma_split_chars_fit(block@, seq!['\n'], max_len as nat);
                    assert forall|k: int| 0 <= k < lines.len() implies chars_fit(
                        #[trigger] lines@[k]@,
                        max_len as nat,
                    ) by {
                        assert(views(lines@)[k] == lines@[k]@);
                    }
                }
                cur = pack_lines(&mut chunks, &lines, max_len);
                cur_len = blen_of(&cur, 0, cur.len());
                proof {
                    assert(cur@.subrange(0, cur.len() as int) =~= cur@);
                }
            } else {
                cur = slice_vec(block, 0, block.len());
                cur_len = block_len;
            }
        }
        proof {
            assert((string_views(chunks@), cur@) == block_step(before, block@, max_len as nat));
        }
        i = i + 1;
    }
    proof {
        assert(views(blocks@).take(blocks.len() as int) =~= views(blocks@));
    }
    if cur.len() > 0 {
        let done = string_from(&cur);
        proof {
            assert(string_views(chunks@.push(done)) =~= string_views(chunks@).push(cur@));
        }
        chunks.push(done);
    }
    proof {
        assert forall|i: int| 0 <= i < chunks.len() implies #[trigger] chunks@[i]@ == chunks_of(
            text@,
            max_len as nat,
        )[i] by {
            assert(chunks@[i]@ == string_views(chunks@)[i]);
        }
        assert forall|i: int| 0 <= i < chunks.len() implies vstd::utf8::encode_utf8(
            #[trigger] chunks@[i]@,
        ).len() <= max_len by {
            assert(chunks@[i]@ == string_views(chunks@)[i]);
            lemma_blen_is_encoded_len(chunks@[i]@);
        }
    }
    chunks
}

/// A chunk that holds something and whose encoding fits in `max` bytes.
pub open spec fn chunk_ok(c: Seq<char>, max: nat) -> bool {
    c.len() > 0 && blen(c) <= max
}

/// Every emitted chunk is a good one and the chunk being filled fits.
pub open spec fn state_ok(st: ChunkState, max: nat) -> bool {
    &&& forall|i: int| 0 <= i < st.0.len() ==> chunk_ok(#[trigger] st.0[i], max)
    &&& blen(st.1) <= max
}

proof fn lemma_hard_split_ok(s: Seq<char>, max: nat)
    ensures
        forall|i: int|
            0 <= i < hard_split(s, max).len() ==> chunk_ok(#[trigger] hard_split(s, max)[i], max),
    decreases s.len(),
{
    let k = fit_prefix(s, max);
    if s.len() == 0 || k == 0 {
    } else {
        lemma_fit_prefix_bound(s, max);
        lemma_hard_split_ok(s.skip(k as int), max);
        let r = hard_split(s, max);
        assert forall|i: int| 0 <= i < r.len() implies chunk_ok(#[trigger] r[i], max) by {
            if i > 0 {
                assert(r[i] == hard_split(s.skip(k as int), max)[i - 1]);
            }
        }
    }
}

proof fn lemma_push_ok(chunks: Seq<Seq<char>>, c: Seq<char>, max: nat)
    requires
        forall|i: int| 0 <= i < chunks.len() ==> chunk_ok(#[trigger] chunks[i], max),
        chunk_ok(c, max),
    ensures
        forall|i: int| 0 <= i < chunks.push(c).len() ==> chunk_ok(#[trigger] chunks.push(c)[i], max),
{
    assert forall|i: int| 0 <= i < chunks.push(c).len() implies chunk_ok(
        #[trigger] chunks.push(c)[i],
        max,
    ) by {
        if i < chunks.len() {
            assert(chunks.push(c)[i] == chunks[i]);
        }
    }
}

proof fn lemma_line_step_ok(st: ChunkState, line: Seq<char>, max: nat)
    requires
        state_ok(st, max),
    ensures
        state_ok(line_step(st, line, max), max),
{
    let (chunks, cur) = st;
    let cand = if cur.len() == 0 {
        line
    } else {
        cur + seq!['\n'] + line
    };
    if blen(cand) > max {
        let chunks1 = if cur.len() > 0 {
            chunks.push(cur)
        } else {
            chunks
        };
        if cur.len() > 0 {
            lemma_push_ok(chunks, cur, max);
        }
        if blen(line) > max {
            lemma_hard_split_ok(line, max);
            let hs = hard_split(line, max);
            assert forall|i: int| 0 <= i < (chunks1 + hs).len() implies chunk_ok(
                #[trigger] (chunks1 + hs)[i],
                max,
            ) by {
                if i >= chunks1.len() {
                    assert((chunks1 + hs)[i] == hs[i - chunks1.len()]);
                }
            }
            assert(blen(Seq::<char>::empty()) == 0);
        }
    }
}

proof fn lemma_line_fold_ok(lines: Seq<Seq<char>>, st: ChunkState, max: nat)
    requires
        state_ok(st, max),
    ensures
        state_ok(line_fold(lines, st, max), max),
    decreases lines.len(),
{
    if lines.len() > 0 {
        lemma_line_fold_ok(lines.drop_last(), st, max);
        lemma_line_step_ok(line_fold(lines.drop_last(), st, max), lines.last(), max);
    }
}

proof fn lemma_block_step_ok(st: ChunkState, block: Seq<char>, max: nat)
    requires
        state_ok(st, max),
    ensures
        state_ok(block_step(st, block, max), max),
{
    let (chunks, cur) = st;
    let cand = if cur.len() == 0 {
        block
    } else {
        cur + seq!['\n', '\n'] + block
    };
    if blen(cand) > max {
        let chunks1 = if cur.len() > 0 {
            chunks.push(cur)
        } else {
            chunks
        };
        if cur.len() > 0 {
            lemma_push_ok(chunks, cur, max);
        }
        if blen(block) > max {
            assert(blen(Seq::<char>::empty()) == 0);
            lemma_line_fold_ok(split_on(block, seq!['\n']), (chunks1, seq![]), max);
        }
    }
}

proof fn lemma_block_fold_ok(blocks: Seq<Seq<char>>, max: nat)
    ensures
        state_ok(block_fold(blocks, max), max),
    decreases blocks.len(),
{
    if blocks.len() > 0 {
        lemma_block_fold_ok(blocks.drop_last(), max);
        lemma_block_step_ok(block_fold(blocks.drop_last(), max), blocks.last(), max);
    } else {
        assert(blen(Seq::<char>::empty()) == 0);
    }
}

/// Every chunk fits in `max` bytes, and none is empty unless the text is.
pub proof fn lemma_chunks_fit(text: Seq<char>, max: nat)
    ensures
        forall|i: int|
            0 <= i < chunks_of(text, max).len() ==> blen(#[trigger] chunks_of(text, max)[i])
                <= max,
        text.len() > 0 ==> forall|i: int|
            0 <= i < chunks_of(text, max).len() ==> (#[trigger] chunks_of(text, max)[i]).len()
                > 0,
{
    if blen(text) > max {
        let st = block_fold(split_on(text, seq!['\n', '\n']), max);
        lemma_block_fold_ok(split_on(text, seq!['\n', '\n']), max);
        if st.1.len() > 0 {
            lemma_push_ok(st.0, st.1, max);
        }
    }
}

// ---------------------------------------------------------------------------
// Torrent listings
// ---------------------------------------------------------------------------

/// The four lines of `detail_text`: emoji and name; progress and sizes;
/// speeds and ratio; peers and ETA.
pub open spec fn detail_lines(t: TorrentInfo) -> Seq<Seq<char>> {
    seq![
        emoji_of(t.state@) + " "@ + t.name@,
        "  Progress: "@ + t.progress_pct@ + "%  |  "@ + size_text(t.completed as nat) + " / "@
            + size_text(t.size as nat),
        "  ↓ "@ + speed_text(t.dlspeed as nat) + "  ↑ "@ + speed_text(t.upspeed as nat)
            + "  Ratio: "@ + t.ratio_text@,
        "  Peers: "@ + dec(t.num_leechs as nat) + "/"@ + dec(t.num_seeds as nat) + "  |  ETA: "@
            + eta_text(t.eta as int),
    ]
}

/// What `format_detail` returns: the four lines of `detail_lines`, each
/// after the first on a line of its own.
pub open spec fn detail_text(t: TorrentInfo) -> Seq<char> {
    let ls = detail_lines(t);
    ls[0] + "\n"@ + ls[1] + "\n"@ + ls[2] + "\n"@ + ls[3]
}

/// What `format_brief` returns: one line with the state emoji, name,
/// progress and size.
pub open spec fn brief_text(t: TorrentInfo) -> Seq<char> {
    emoji_of(t.state@) + " "@ + t.name@ + " — "@ + t.progress_pct@ + "% of "@ + size_text(
        t.size as nat,
    )
}

/// Format a single torrent with full details (4 lines).
pub fn format_detail(t: &TorrentInfo) -> (s: String)
    ensures
        s@ == detail_text(*t),
{
    let mut l0 = String::from_str(state_emoji(t.state.as_str()));
    push_str(&mut l0, " ");
    push_str(&mut l0, t.name.as_str());
    let mut l1 = String::from_str("  Progress: ");
    push_str(&mut l1, t.progress_pct.as_str());
    push_str(&mut l1, "%  |  ");
    let completed = fmt_size(t.completed);
    push_str(&mut l1, completed.as_str());
    push_str(&mut l1, " / ");
    let size = fmt_size(t.size);
    push_str(&mut l1, size.as_str());
    let mut l2 = String::from_str("  ↓ ");
    let dl = fmt_speed(t.dlspeed);
    push_str(&mut l2, dl.as_str());
    push_str(&mut l2, "  ↑ ");
    let up = fmt_speed(t.upspeed);
    push_str(&mut l2, up.as_str());
    push_str(&mut l2, "  Ratio: ");
    push_str(&mut l2, t.ratio_text.as_str());
    let mut l3 = String::from_str("  Peers: ");
    push_dec(&mut l3, t.num_leechs as u64);
    push_str(&mut l3, "/");
    push_dec(&mut l3, t.num_seeds as u64);
    push_str(&mut l3, "  |  ETA: ");
    let eta = fmt_eta(t.eta);
    push_str(&mut l3, eta.as_str());
    let ghost ls = detail_lines(*t);
    assert(l0@ =~= ls[0]);
    assert(l1@ =~= ls[1]);
    assert(l2@ =~= ls[2]);
    assert(l3@ =~= ls[3]);
    let mut s = l0;
    push_str(&mut s, "\n");
    push_str(&mut s, l1.as_str());
    push_str(&mut s, "\n");
    push_str(&mut s, l2.as_str());
    push_str(&mut s, "\n");
    push_str(&mut s, l3.as_str());
    s
}

/// Format a single torrent as a brief one-liner.
pub fn format_brief(t: &TorrentInfo) -> (s: String)
    ensures
        s@ == brief_text(*t),
{
    let mut s = String::from_str(state_emoji(t.state.as_str()));
    push_str(&mut s, " ");
    push_str(&mut s, t.name.as_str());
    push_str(&mut s, " — ");
    push_str(&mut s, t.progress_pct.as_str());
    push_str(&mut s, "% of ");
    let size = fmt_size(t.size);
    push_str(&mut s, size.as_str());
    assert(s@ =~= brief_text(*t));
    s
}

/// `s` holds no line feed.
pub open spec fn single_line(s: Seq<char>) -> bool {
    forall|i: int| 0 <= i < s.len() ==> s[i] != '\n'
}

proof fn lemma_single_line_add(a: Seq<char>, b: Seq<char>)
    requires
        single_line(a),
        single_line(b),
    ensures
        single_line(a + b),
{
    assert forall|i: int| 0 <= i < (a + b).len() implies (a + b)[i] != '\n' by {
        if i >= a.len() {
            assert((a + b)[i] == b[i - a.len()]);
        }
    }
}

proof fn lemma_dec_single_line(n: nat)
    ensures
        single_line(dec(n)),
        single_line(dec2(n)),
    decreases n,
{
    if n >= 10 {
        lemma_dec_single_line(n / 10);
        lemma_single_line_add(dec(n / 10), seq![digit_char(n % 10)]);
        assert(dec(n / 10).push(digit_char(n % 10)) =~= dec(n / 10) + seq![digit_char(n % 10)]);
    }
}

proof fn lemma_size_single_line(bytes: nat)
    ensures
        single_line(size_text(bytes)),
        single_line(speed_text(bytes)),
{
    let f = f64_value(bytes);
    let i = unit_index(f);
    let t = div_round_even(f * 10, unit_divisor(i));
    lemma_dec_single_line(t / 10);
    lemma_single_line_add(dec(t / 10), seq!['.', digit_char(t % 10)]);
    reveal_strlit(" ");
    reveal_strlit("B");
    reveal_strlit("KB");
    reveal_strlit("MB");
    reveal_strlit("GB");
    reveal_strlit("TB");
    reveal_strlit("PB");
    lemma_single_line_add(tenths_text(t), " "@);
    lemma_single_line_add(tenths_text(t) + " "@, unit_name(i));
    reveal_strlit("0 B/s");
    reveal_strlit("/s");
    lemma_single_line_add(size_text(bytes), "/s"@);
}

proof fn lemma_eta_single_line(seconds: int)
    ensures
        single_line(eta_text(seconds)),
{
    reveal_strlit("∞");
    reveal_strlit(":");
    if 0 < seconds < eta_cap() {
        let h = seconds / 3600;
        let m = (seconds % 3600) / 60;
        let sec = seconds % 60;
        lemma_dec_single_line(h as nat);
        lemma_dec_single_line(m as nat);
        lemma_dec_single_line(sec as nat);
        lemma_single_line_add(dec(h as nat), ":"@);
        lemma_single_line_add(dec(h as nat) + ":"@, dec2(m as nat));
        lemma_single_line_add(dec(h as nat) + ":"@ + dec2(m as nat), ":"@);
        lemma_single_line_add(dec(h as nat) + ":"@ + dec2(m as nat) + ":"@, dec2(sec as nat));
        lemma_single_line_add(dec(m as nat), ":"@);
        lemma_single_line_add(dec(m as nat) + ":"@, dec2(sec as nat));
    }
}

proof fn lemma_emoji_single_line(state: Seq<char>)
    ensures
        single_line(emoji_of(state)),
{
    reveal_strlit("⏬");
    reveal_strlit("⏫");
    reveal_strlit("⏸️");
    reveal_strlit("⏹️");
    reveal_strlit("⏯️");
    reveal_strlit("🔍");
    reveal_strlit("❗");
    reveal_strlit("⚠️");
    reveal_strlit("⚙️");
    reveal_strlit("📡");
    reveal_strlit("💾");
    reveal_strlit("📦");
    reveal_strlit("❓");
}

/// A detailed entry is four lines: when the name and the rendered progress
/// and ratio hold no line feed, it is the four lines of `detail_lines`,
/// none holding a line feed, joined by line feeds.
pub proof fn lemma_detail_four_lines(t: TorrentInfo)
    requires
        single_line(t.name@),
        single_line(t.progress_pct@),
        single_line(t.ratio_text@),
    ensures
        detail_lines(t).len() == 4,
        forall|k: int| 0 <= k < 4 ==> single_line(#[trigger] detail_lines(t)[k]),
        detail_text(t) == join(detail_lines(t), seq!['\n']),
{
    lemma_detail_first_lines(t);
    lemma_detail_last_lines(t);
    lemma_detail_join(t);
    let ls = detail_lines(t);
    assert forall|k: int| 0 <= k < 4 implies single_line(#[trigger] ls[k]) by {
        if k == 0 {
        } else if k == 1 {
        } else if k == 2 {
        } else {
        }
    }
}

proof fn lemma_detail_first_lines(t: TorrentInfo)
    requires
        single_line(t.name@),
        single_line(t.progress_pct@),
    ensures
        single_line(detail_lines(t)[0]),
        single_line(detail_lines(t)[1]),
{
    reveal_strlit(" ");
    reveal_strlit("  Progress: ");
    reveal_strlit("%  |  ");
    reveal_strlit(" / ");
    lemma_emoji_single_line(t.state@);
    lemma_size_single_line(t.completed as nat);
    lemma_size_single_line(t.size as nat);
    lemma_single_line_add(emoji_of(t.state@), " "@);
    lemma_single_line_add(emoji_of(t.state@) + " "@, t.name@);
    let p1 = "  Progress: "@ + t.progress_pct@;
    lemma_single_line_add("  Progress: "@, t.progress_pct@);
    lemma_single_line_add(p1, "%  |  "@);
    lemma_single_line_add(p1 + "%  |  "@, size_text(t.completed as nat));
    lemma_single_line_add(p1 + "%  |  "@ + size_text(t.completed as nat), " / "@);
    lemma_single_line_add(
        p1 + "%  |  "@ + size_text(t.completed as nat) + " / "@,
        size_text(t.size as nat),
    );
}

proof fn lemma_detail_last_lines(t: TorrentInfo)
    requires
        single_line(t.ratio_text@),
    ensures
        single_line(detail_lines(t)[2]),
        single_line(detail_lines(t)[3]),
{
    reveal_strlit("  ↓ ");
    reveal_strlit("  ↑ ");
    reveal_strlit("  Ratio: ");
    reveal_strlit("  Peers: ");
    reveal_strlit("/");
    reveal_strlit("  |  ETA: ");
    lemma_size_single_line(t.dlspeed as nat);
    lemma_size_single_line(t.upspeed as nat);
    lemma_eta_single_line(t.eta as int);
    lemma_dec_single_line(t.num_leechs as nat);
    lemma_dec_single_line(t.num_seeds as nat);
    let s1 = "  ↓ "@ + speed_text(t.dlspeed as nat);
    lemma_single_line_add("  ↓ "@, speed_text(t.dlspeed as nat));
    lemma_single_line_add(s1, "  ↑ "@);
    lemma_single_line_add(s1 + "  ↑ "@, speed_text(t.upspeed as nat));
    lemma_single_line_add(s1 + "  ↑ "@ + speed_text(t.upspeed as nat), "  Ratio: "@);
    lemma_single_line_add(
        s1 + "  ↑ "@ + speed_text(t.upspeed as nat) + "  Ratio: "@,
        t.ratio_text@,
    );
    let q1 = "  Peers: "@ + dec(t.num_leechs as nat);
    lemma_single_line_add("  Peers: "@, dec(t.num_leechs as nat));
    lemma_single_line_add(q1, "/"@);
    lemma_single_line_add(q1 + "/"@, dec(t.num_seeds as nat));
    lemma_single_line_add(q1 + "/"@ + dec(t.num_seeds as nat), "  |  ETA: "@);
    lemma_single_line_add(
        q1 + "/"@ + dec(t.num_seeds as nat) + "  |  ETA: "@,
        eta_text(t.eta as int),
    );
}

proof fn lemma_detail_join(t: TorrentInfo)
    ensures
        detail_text(t) == join(detail_lines(t), seq!['\n']),
{
    let ls = detail_lines(t);
    let nl = seq!['\n'];
    assert(join(ls.take(1), nl) == ls[0]);
    assert(ls.take(2).drop_last() =~= ls.take(1));
    assert(ls.take(3).drop_last() =~= ls.take(2));
    assert(ls.drop_last() =~= ls.take(3));
    assert(join(ls.take(2), nl) == ls[0] + nl + ls[1]);
    assert(join(ls.take(3), nl) == ls[0] + nl + ls[1] + nl + ls[2]);
    assert(join(ls, nl) == ls[0] + nl + ls[1] + nl + ls[2] + nl + ls[3]);
    reveal_strlit("\n");
    assert("\n"@ =~= nl);
}

/// A brief entry is one line: when the name and the rendered progress hold
/// no line feed, neither does the entry.
pub proof fn lemma_brief_one_line(t: TorrentInfo)
    requires
        single_line(t.name@),
        single_line(t.progress_pct@),
    ensures
        single_line(brief_text(t)),
{
    reveal_strlit(" ");
    reveal_strlit(" — ");
    reveal_strlit("% of ");
    lemma_emoji_single_line(t.state@);
    lemma_size_single_line(t.size as nat);
    let a = emoji_of(t.state@) + " "@;
    lemma_single_line_add(emoji_of(t.state@), " "@);
    lemma_single_line_add(a, t.name@);
    lemma_single_line_add(a + t.name@, " — "@);
    lemma_single_line_add(a + t.name@ + " — "@, t.progress_pct@);
    lemma_single_line_add(a + t.name@ + " — "@ + t.progress_pct@, "% of "@);
    lemma_single_line_add(a + t.name@ + " — "@ + t.progress_pct@ + "% of "@, size_text(t.size as nat));
}

/// Rank of a state in a listing: downloading first, then seeding, then
/// everything else.
pub open spec fn state_order(state: Seq<char>) -> int {
    if state == "downloading"@ || state == "forcedDL"@ || state == "metaDL"@ {
        0
    } else if state == "uploading"@ || state == "forcedUP"@ {
        2
    } else {
        3
    }
}

fn state_order_of(state: &str) -> (r: i64)
    ensures
        r == state_order(state@),
{
    if str_eq(state, "downloading") || str_eq(state, "forcedDL") || str_eq(state, "metaDL") {
        0
    } else if str_eq(state, "uploading") || str_eq(state, "forcedUP") {
        2
    } else {
        3
    }
}

/// `a` comes strictly before `b` in a listing: a lower state rank, or the
/// same state rank and more progress.
pub open spec fn listed_before(a: TorrentInfo, b: TorrentInfo) -> bool {
    state_order(a.state@) < state_order(b.state@) || (state_order(a.state@) == state_order(
        b.state@,
    ) && float_rank(a.progress_bits) > float_rank(b.progress_bits))
}

/// Torrent `i` is shown before torrent `j`: it comes strictly before, or
/// neither comes before the other and it was listed first (a stable sort).
pub open spec fn precedes(ts: Seq<TorrentInfo>, i: int, j: int) -> bool {
    listed_before(ts[i], ts[j]) || (!listed_before(ts[j], ts[i]) && i < j)
}

/// `perm` lists the indices of `ts` in display order.
pub open spec fn is_listing_order(ts: Seq<TorrentInfo>, perm: Seq<usize>) -> bool {
    &&& perm.len() == ts.len()
    &&& forall|k: int| 0 <= k < perm.len() ==> #[trigger] perm[k] < ts.len()
    &&& forall|a: int, b: int|
        0 <= a < b < perm.len() ==> precedes(ts, #[trigger] perm[a] as int, #[trigger] perm[b] as int)
}

/// The indices of `ts` in display order.
fn listing_order(ts: &Vec<TorrentInfo>) -> (perm: Vec<usize>)
    ensures
        is_listing_order(ts@, perm@),
{
    let n = ts.len();
    let mut orders: Vec<i64> = Vec::new();
    let mut ranks: Vec<i64> = Vec::new();
    let mut i: usize = 0;
    while i < n
        invariant
            i <= n == ts.len(),
            orders.len() == i,
            ranks.len() == i,
            forall|k: int| 0 <= k < i ==> orders@[k] == state_order(#[trigger] ts@[k].state@),
            forall|k: int| 0 <= k < i ==> ranks@[k] == float_rank(#[trigger] ts@[k].progress_bits),
        decreases n - i,
    {
        orders.push(state_order_of(ts[i].state.as_str()));
        ranks.push(rank_of_bits(ts[i].progress_bits));
        i = i + 1;
    }
    let mut perm: Vec<usize> = Vec::new();
    let mut i: usize = 0;
    while i < n
        invariant
            i <= n == ts.len(),
            orders.len() == n,
            ranks.len() == n,
            forall|k: int| 0 <= k < n ==> orders@[k] == state_order(#[trigger] ts@[k].state@),
            forall|k: int| 0 <= k < n ==> ranks@[k] == float_rank(#[trigger] ts@[k].progress_bits),
            perm.len() == i,
            forall|k: int| 0 <= k < perm.len() ==> #[trigger] perm@[k] < i,
            forall|a: int, b: int|
                0 <= a < b < perm.len() ==> precedes(
                    ts@,
                    #[trigger] perm@[a] as int,
                    #[trigger] perm@[b] as int,
                ),
        decreases n - i,
    {
        let mut p: usize = 0;
        while p < perm.len() && !(orders[i] < orders[perm[p]] || (orders[i] == orders[perm[p]]
            && ranks[i] > ranks[perm[p]]))
            invariant
                i < n == ts.len(),
                orders.len() == n,
                ranks.len() == n,
                forall|k: int| 0 <= k < n ==> orders@[k] == state_order(#[trigger] ts@[k].state@),
                forall|k: int|
                    0 <= k < n ==> ranks@[k] == float_rank(#[trigger] ts@[k].progress_bits),
                perm.len() == i,
                forall|k: int| 0 <= k < perm.len() ==> #[trigger] perm@[k] < i,
                p <= perm.len(),
                forall|q: int|
                    0 <= q < p ==> !listed_before(ts@[i as int], #[trigger] ts@[perm@[q] as int]),
            decreases perm.len() - p,
        {
            p = p + 1;
        }
        let ghost old_perm = perm@;
        proof {
            if p < perm.len() {
                assert(listed_before(ts@[i as int], ts@[perm@[p as int] as int]));
            }
        }
        perm.insert(p, i);
        proof {
            assert(perm@ =~= old_perm.insert(p as int, i));
            assert forall|k: int| 0 <= k < perm.len() implies #[trigger] perm@[k] < i + 1 by {
                if k < p {
                    assert(perm@[k] == old_perm[k]);
                } else if k > p {
                    assert(perm@[k] == old_perm[k - 1]);
                }
            }
            assert forall|a: int, b: int| 0 <= a < b < perm.len() implies precedes(
                ts@,
                #[trigger] perm@[a] as int,
                #[trigger] perm@[b] as int,
            ) by {
                let ti = ts@[i as int];
                if a < p && b < p {
                    assert(perm@[a] == old_perm[a] && perm@[b] == old_perm[b]);
                } else if a < p && b == p {
                    assert(perm@[a] == old_perm[a]);
                    assert(!listed_before(ti, ts@[old_perm[a] as int]));
                } else if a < p && b > p {
                    assert(perm@[a] == old_perm[a] && perm@[b] == old_perm[b - 1]);
                } else if a == p {
                    assert(perm@[b] == old_perm[b - 1]);
                    let x = ts@[old_perm[p as int] as int];
                    let y = ts@[old_perm[b - 1] as int];
                    assert(listed_before(ti, x));
                    if b - 1 > p {
                        assert(precedes(ts@, old_perm[p as int] as int, old_perm[b - 1] as int));
                    }
                    assert(listed_before(ti, y));
                } else {
                    assert(perm@[a] == old_perm[a - 1] && perm@[b] == old_perm[b - 1]);
                }
            }
        }
        i = i + 1;
    }
    perm
}

/// A torrent's entry in a listing.
pub open spec fn entry_text(t: TorrentInfo, detailed: bool) -> Seq<char> {
    if detailed {
        detail_text(t)
    } else {
        brief_text(t)
    }
}

/// The note closing a listing cut short, with the number of torrents left out.
pub open spec fn more_text(n: nat) -> Seq<char> {
    "…and "@ + dec(n) + " more (use a filter command)"@
}

/// `parts` joined with `sep` between consecutive parts (`join`).
pub open spec fn join(parts: Seq<Seq<char>>, sep: Seq<char>) -> Seq<char>
    decreases parts.len(),
{
    if parts.len() == 0 {
        seq![]
    } else if parts.len() == 1 {
        parts[0]
    } else {
        join(parts.drop_last(), sep) + sep + parts.last()
    }
}

/// The entries of a listing: the first `limit` torrents in display order,
/// then the note on how many were left out, if any were.
pub open spec fn list_entries(ts: Seq<TorrentInfo>, perm: Seq<usize>, limit: nat, detailed: bool) -> Seq<
    Seq<char>,
> {
    let shown = if limit < ts.len() {
        limit
    } else {
        ts.len()
    };
    let entries = Seq::new(shown, |k: int| entry_text(ts[perm[k] as int], detailed));
    if ts.len() > limit {
        entries.push(more_text((ts.len() - limit) as nat))
    } else {
        entries
    }
}

/// What `format_list` returns for the display order `perm`.
pub open spec fn list_text(ts: Seq<TorrentInfo>, perm: Seq<usize>, limit: nat, detailed: bool) -> Seq<
    char,
> {
    if ts.len() == 0 {
        "No torrents found."@
    } else {
        join(list_entries(ts, perm, limit, detailed), "\n\n"@)
    }
}

/// Format a list of torrents sorted by activity then progress.
pub fn format_list(torrents: &[TorrentInfo], limit: usize, detailed: bool) -> (s: String)
    ensures
        exists|perm: Seq<usize>|
            is_listing_order(torrents@, perm) && s@ == list_text(
                torrents@,
                perm,
                limit as nat,
                detailed,
            ),
{
    if torrents.len() == 0 {
        let s = String::from_str("No torrents found.");
        assert(is_listing_order(torrents@, Seq::<usize>::empty()));
        return s;
    }
    let ts = slice_to_vec(torrents);
    let perm = listing_order(&ts);
    let n = ts.len();
    let shown = if limit < n {
        limit
    } else {
        n
    };
    let mut entries: Vec<String> = Vec::new();
    let mut k: usize = 0;
    while k < shown
        invariant
            k <= shown <= n == ts.len() == perm.len(),
            ts@ == torrents@,
            is_listing_order(ts@, perm@),
            string_views(entries@) == Seq::new(
                k as nat,
                |j: int| entry_text(ts@[perm@[j] as int], detailed),
            ),
        decreases shown - k,
    {
        let t = &ts[perm[k]];
        let e = if detailed {
            format_detail(t)
        } else {
            format_brief(t)
        };
        assert(e@ == entry_text(ts@[perm@[k as int] as int], detailed));
        let ghost before = string_views(entries@);
        entries.push(e);
        assert(string_views(entries@) =~= before.push(e@));
        assert(string_views(entries@) =~= Seq::new(
            (k + 1) as nat,
            |j: int| entry_text(ts@[perm@[j] as int], detailed),
        ));
        k = k + 1;
    }
    if n > limit {
        let mut more = String::from_str("…and ");
        push_dec(&mut more, (n - limit) as u64);
        push_str(&mut more, " more (use a filter command)");
        entries.push(more);
    }
    let ghost parts = list_entries(ts@, perm@, limit as nat, detailed);
    assert(string_views(entries@) =~= parts);
    let mut s = String::new();
    let mut i: usize = 0;
    while i < entries.len()
        invariant
            i <= entries.len(),
            string_views(entries@) == parts,
            s@ == join(parts.take(i as int), "\n\n"@),
        decreases entries.len() - i,
    {
        let ghost before = s@;
        if i > 0 {
            push_str(&mut s, "\n\n");
        }
        push_str(&mut s, entries[i].as_str());
        proof {
            let p1 = parts.take(i + 1);
            assert(p1.drop_last() =~= parts.take(i as int));
            assert(p1.last() == entries@[i as int]@);
            if i == 0 {
                assert(parts.take(0) =~= Seq::<Seq<char>>::empty());
                assert(s@ =~= p1[0]);
            }
        }
        i = i + 1;
    }
    assert(parts.take(entries.len() as int) =~= parts);
    s
}

/// A copy of the torrents in a slice.
fn slice_to_vec(ts: &[TorrentInfo]) -> (v: Vec<TorrentInfo>)
    ensures
        v@ == ts@,
{
    let mut v: Vec<TorrentInfo> = Vec::new();
    let mut i: usize = 0;
    while i < ts.len()
        invariant
            i <= ts@.len(),
            v@ == ts@.take(i as int),
        decreases ts@.len() - i,
    {
        v.push(ts[i].duplicate());
        assert(v@ =~= ts@.take(i + 1));
        i = i + 1;
    }
    assert(ts@.take(ts@.len() as int) =~= ts@);
    v
}

proof fn lemma_listing_order_covers(ts: Seq<TorrentInfo>, p: Seq<usize>, x: int)
    requires
        is_listing_order(ts, p),
        0 <= x < ts.len(),
    ensures
        exists|j: int| 0 <= j < p.len() && p[j] as int == x,
{
    let q = p.map_values(|u: usize| u as int);
    assert forall|a: int, b: int| 0 <= a < q.len() && 0 <= b < q.len() && a != b implies q[a]
        != q[b] by {
        if a < b {
            assert(precedes(ts, p[a] as int, p[b] as int));
        } else {
            assert(precedes(ts, p[b] as int, p[a] as int));
        }
    }
    assert(q.no_duplicates());
    q.unique_seq_to_set();
    let range = vstd::set_lib::set_int_range(0, ts.len() as int);
    vstd::set_lib::lemma_int_range(0, ts.len() as int);
    assert(q.to_set().subset_of(range)) by {
        assert forall|v: int| q.to_set().contains(v) implies range.contains(v) by {
            let j = choose|j: int| 0 <= j < q.len() && q[j] == v;
            assert(p[j] < ts.len());
        }
    }
    vstd::seq_lib::seq_to_set_is_finite(q);
    vstd::set_lib::lemma_subset_equality(q.to_set(), range);
    assert(range.contains(x));
    assert(q.to_set().contains(x));
    let j = choose|j: int| 0 <= j < q.len() && q[j] == x;
    assert(p[j] as int == x);
}

proof fn lemma_precedes_order(ts: Seq<TorrentInfo>, i: int, j: int)
    ensures
        !(precedes(ts, i, j) && precedes(ts, j, i)),
        i != j ==> precedes(ts, i, j) || precedes(ts, j, i),
        !precedes(ts, i, i),
{
}

proof fn lemma_orders_agree_upto(ts: Seq<TorrentInfo>, p1: Seq<usize>, p2: Seq<usize>, k: int)
    requires
        is_listing_order(ts, p1),
        is_listing_order(ts, p2),
        0 <= k < p1.len(),
    ensures
        forall|m: int| 0 <= m <= k ==> p1[m] == p2[m],
    decreases k,
{
    if k > 0 {
        lemma_orders_agree_upto(ts, p1, p2, k - 1);
    }
    let x = p1[k] as int;
    let y = p2[k] as int;
    if x != y {
        lemma_precedes_order(ts, x, y);
        if precedes(ts, x, y) {
            lemma_listing_order_covers(ts, p2, x);
            let j = choose|j: int| 0 <= j < p2.len() && p2[j] as int == x;
            if j < k {
                assert(p1[j] == p2[j]);
                assert(precedes(ts, p1[j] as int, p1[k] as int));
                lemma_precedes_order(ts, x, x);
            } else {
                assert(j > k);
                assert(precedes(ts, p2[k] as int, p2[j] as int));
            }
        } else {
            lemma_listing_order_covers(ts, p1, y);
            let j = choose|j: int| 0 <= j < p1.len() && p1[j] as int == y;
            if j < k {
                assert(p1[j] == p2[j]);
                assert(precedes(ts, p2[j] as int, p2[k] as int));
                lemma_precedes_order(ts, y, y);
            } else {
                assert(j > k);
                assert(precedes(ts, p1[k] as int, p1[j] as int));
            }
        }
    }
}

/// There is exactly one display order of a list of torrents, so the
/// listing `format_list` returns is determined by its arguments.
pub proof fn lemma_listing_order_unique(ts: Seq<TorrentInfo>, p1: Seq<usize>, p2: Seq<usize>)
    requires
        is_listing_order(ts, p1),
        is_listing_order(ts, p2),
    ensures
        p1 == p2,
{
    if p1.len() > 0 {
        lemma_orders_agree_upto(ts, p1, p2, p1.len() - 1);
    }
    assert(p1 =~= p2);
}

// ---------------------------------------------------------------------------
// No text is lost or added by chunking, newlines aside
// ---------------------------------------------------------------------------

/// `c` is not a line feed.
pub open spec fn not_newline(c: char) -> bool {
    c != '\n'
}

/// `s` with its line feeds removed.
pub open spec fn strip_nl(s: Seq<char>) -> Seq<char> {
    s.filter(|c: char| not_newline(c))
}

proof fn lemma_strip_add(a: Seq<char>, b: Seq<char>)
    ensures
        strip_nl(a + b) == strip_nl(a) + strip_nl(b),
{
    Seq::filter_distributes_over_add(a, b, |c: char| not_newline(c));
}

proof fn lemma_strip_newlines()
    ensures
        strip_nl(seq!['\n']) == Seq::<char>::empty(),
        strip_nl(seq!['\n', '\n']) == Seq::<char>::empty(),
        strip_nl(Seq::<char>::empty()) == Seq::<char>::empty(),
{
    let e = Seq::<char>::empty();
    reveal(Seq::filter);
    assert(e.filter(|c: char| not_newline(c)) =~= e);
    assert(seq!['\n'].drop_last() =~= e);
    assert(seq!['\n'].filter(|c: char| not_newline(c)) =~= e);
    assert(seq!['\n', '\n'].drop_last() =~= seq!['\n']);
    assert(seq!['\n', '\n'].filter(|c: char| not_newline(c)) =~= e);
}

/// What has been taken in so far, newlines removed.
pub open spec fn taken(st: ChunkState) -> Seq<char> {
    strip_nl(st.0.flatten() + st.1)
}

proof fn lemma_hard_split_flatten(s: Seq<char>, max: nat)
    requires
        chars_fit(s, max),
    ensures
        hard_split(s, max).flatten() == s,
    decreases s.len(),
{
    let k = fit_prefix(s, max);
    if s.len() == 0 {
        assert(hard_split(s, max) =~= Seq::<Seq<char>>::empty());
        assert(s =~= Seq::<char>::empty());
    } else {
        assert(char_width(s[0]) <= max);
        lemma_fit_prefix_bound(s, max);
        let rest = s.skip(k as int);
        assert(chars_fit(rest, max)) by {
            assert forall|i: int| 0 <= i < rest.len() implies char_width(#[trigger] rest[i])
                <= max by {
                assert(rest[i] == s[i + k]);
            }
        }
        lemma_hard_split_flatten(rest, max);
        let hs = hard_split(s, max);
        assert(hs == seq![s.take(k as int)] + hard_split(rest, max));
        lemma_flatten_concat(seq![s.take(k as int)], hard_split(rest, max));
        seq![s.take(k as int)].lemma_flatten_one_element();
        assert(s.take(k as int) + rest =~= s);
    }
}

proof fn lemma_split_strip(s: Seq<char>, sep: Seq<char>)
    requires
        strip_nl(sep) == Seq::<char>::empty(),
    ensures
        strip_nl(split_on(s, sep).flatten()) == strip_nl(s),
    decreases s.len(),
{
    let j = find_from(s, sep, 0);
    if sep.len() == 0 || j < 0 || j + sep.len() > s.len() {
        seq![s].lemma_flatten_one_element();
    } else {
        lemma_find_from(s, sep, 0);
        let rest = s.skip(j + sep.len());
        lemma_split_strip(rest, sep);
        lemma_flatten_concat(seq![s.take(j)], split_on(rest, sep));
        seq![s.take(j)].lemma_flatten_one_element();
        assert(s.subrange(j, j + sep.len()) == sep);
        assert(s =~= s.take(j) + sep + rest);
        lemma_strip_add(s.take(j) + sep, rest);
        lemma_strip_add(s.take(j), sep);
        lemma_strip_add(s.take(j), split_on(rest, sep).flatten());
        assert(s.take(j) + Seq::<char>::empty() =~= s.take(j));
    }
}


proof fn lemma_line_step_taken(st: ChunkState, line: Seq<char>, max: nat)
    requires
        chars_fit(line, max),
    ensures
        taken(line_step(st, line, max)) == taken(st) + strip_nl(line),
{
    let (chunks, cur) = st;
    lemma_strip_newlines();
    lemma_strip_add(chunks.flatten(), cur);
    let cand = if cur.len() == 0 {
        line
    } else {
        cur + seq!['\n'] + line
    };
    if cur.len() > 0 {
        lemma_strip_add(cur + seq!['\n'], line);
        lemma_strip_add(cur, seq!['\n']);
        assert(strip_nl(cur) + Seq::<char>::empty() =~= strip_nl(cur));
    } else {
        assert(cur =~= Seq::<char>::empty());
    }
    lemma_strip_add(chunks.flatten(), cand);
    if blen(cand) > max {
        let chunks1 = if cur.len() > 0 {
            chunks.push(cur)
        } else {
            chunks
        };
        if cur.len() > 0 {
            chunks.lemma_flatten_push(cur);
            lemma_strip_add(chunks.flatten(), cur);
        }
        assert(strip_nl(chunks1.flatten()) == strip_nl(chunks.flatten()) + strip_nl(cur));
        if blen(line) > max {
            lemma_hard_split_flatten(line, max);
            lemma_flatten_concat(chunks1, hard_split(line, max));
            lemma_strip_add(chunks1.flatten(), line);
            lemma_strip_add((chunks1 + hard_split(line, max)).flatten(), Seq::<char>::empty());
            assert((chunks1 + hard_split(line, max)).flatten() + Seq::<char>::empty()
                =~= (chunks1 + hard_split(line, max)).flatten());
        } else {
            lemma_strip_add(chunks1.flatten(), line);
        }
    }
}

proof fn lemma_line_fold_taken(lines: Seq<Seq<char>>, st: ChunkState, max: nat)
    requires
        forall|i: int| 0 <= i < lines.len() ==> chars_fit(#[trigger] lines[i], max),
    ensures
        taken(line_fold(lines, st, max)) == taken(st) + strip_nl(lines.flatten()),
    decreases lines.len(),
{
    if lines.len() == 0 {
        lemma_strip_newlines();
        assert(lines.flatten() =~= Seq::<char>::empty());
        assert(taken(st) + Seq::<char>::empty() =~= taken(st));
    } else {
        let init = lines.drop_last();
        assert forall|i: int| 0 <= i < init.len() implies chars_fit(#[trigger] init[i], max) by {
            assert(init[i] == lines[i]);
        }
        assert(chars_fit(lines.last(), max));
        lemma_line_fold_taken(init, st, max);
        lemma_line_step_taken(line_fold(init, st, max), lines.last(), max);
        init.lemma_flatten_push(lines.last());
        assert(init.push(lines.last()) =~= lines);
        lemma_strip_add(init.flatten(), lines.last());
    }
}

proof fn lemma_block_step_taken(st: ChunkState, block: Seq<char>, max: nat)
    requires
        chars_fit(block, max),
    ensures
        taken(block_step(st, block, max)) == taken(st) + strip_nl(block),
{
    let (chunks, cur) = st;
    lemma_strip_newlines();
    lemma_strip_add(chunks.flatten(), cur);
    let cand = if cur.len() == 0 {
        block
    } else {
        cur + seq!['\n', '\n'] + block
    };
    if cur.len() > 0 {
        lemma_strip_add(cur + seq!['\n', '\n'], block);
        lemma_strip_add(cur, seq!['\n', '\n']);
        assert(strip_nl(cur) + Seq::<char>::empty() =~= strip_nl(cur));
    } else {
        assert(cur =~= Seq::<char>::empty());
    }
    lemma_strip_add(chunks.flatten(), cand);
    if blen(cand) > max {
        let chunks1 = if cur.len() > 0 {
            chunks.push(cur)
        } else {
            chunks
        };
        if cur.len() > 0 {
            chunks.lemma_flatten_push(cur);
            lemma_strip_add(chunks.flatten(), cur);
        }
        assert(strip_nl(chunks1.flatten()) == strip_nl(chunks.flatten()) + strip_nl(cur));
        if blen(block) > max {
            let lines = split_on(block, seq!['\n']);
            lemma_split_chars_fit(block, seq!['\n'], max);
            lemma_line_fold_taken(lines, (chunks1, seq![]), max);
            lemma_split_strip(block, seq!['\n']);
            lemma_strip_add(chunks1.flatten(), Seq::<char>::empty());
            assert(chunks1.flatten() + Seq::<char>::empty() =~= chunks1.flatten());
        } else {
            lemma_strip_add(chunks1.flatten(), block);
        }
    }
}

proof fn lemma_block_fold_taken(blocks: Seq<Seq<char>>, max: nat)
    requires
        forall|i: int| 0 <= i < blocks.len() ==> chars_fit(#[trigger] blocks[i], max),
    ensures
        taken(block_fold(blocks, max)) == strip_nl(blocks.flatten()),
    decreases blocks.len(),
{
    lemma_strip_newlines();
    if blocks.len() == 0 {
        assert(blocks.flatten() =~= Seq::<char>::empty());
        assert(Seq::<Seq<char>>::empty().flatten() + Seq::<char>::empty() =~= Seq::<char>::empty());
    } else {
        let init = blocks.drop_last();
        assert forall|i: int| 0 <= i < init.len() implies chars_fit(#[trigger] init[i], max) by {
            assert(init[i] == blocks[i]);
        }
        assert(chars_fit(blocks.last(), max));
        lemma_block_fold_taken(init, max);
        lemma_block_step_taken(block_fold(init, max), blocks.last(), max);
        init.lemma_flatten_push(blocks.last());
        assert(init.push(blocks.last()) =~= blocks);
        lemma_strip_add(init.flatten(), blocks.last());
    }
}

/// Chunking neither loses, adds nor reorders any character other than a
/// line feed: the chunks, put back together, read as the text once line
/// feeds are dropped from both.
pub proof fn lemma_chunks_keep_text(text: Seq<char>, max: nat)
    requires
        chars_fit(text, max),
    ensures
        strip_nl(chunks_of(text, max).flatten()) == strip_nl(text),
{
    lemma_strip_newlines();
    if blen(text) <= max {
        seq![text].lemma_flatten_one_element();
    } else {
        let blocks = split_on(text, seq!['\n', '\n']);
        lemma_split_chars_fit(text, seq!['\n', '\n'], max);
        lemma_block_fold_taken(blocks, max);
        lemma_split_strip(text, seq!['\n', '\n']);
        let st = block_fold(blocks, max);
        lemma_strip_add(st.0.flatten(), st.1);
        if st.1.len() > 0 {
            st.0.lemma_flatten_push(st.1);
        } else {
            assert(st.1 =~= Seq::<char>::empty());
            assert(st.0.flatten() + st.1 =~= st.0.flatten());
        }
    }
}

// ---------------------------------------------------------------------------
// Chunks are the text's own pieces, in order
// ---------------------------------------------------------------------------

/// Every character of `s` is a line feed.
pub open spec fn all_newlines(s: Seq<char>) -> bool {
    forall|i: int| 0 <= i < s.len() ==> s[i] == '\n'
}

/// `seps[0] + chunks[0] + seps[1] + ... + chunks[n-1] + seps[n]`.
pub open spec fn interleave(seps: Seq<Seq<char>>, chunks: Seq<Seq<char>>) -> Seq<char>
    decreases chunks.len(),
{
    if chunks.len() == 0 {
        seps[0]
    } else {
        interleave(seps.drop_last(), chunks.drop_last()) + chunks.last() + seps.last()
    }
}

/// Every separator is a run of line feeds.
pub open spec fn all_gaps(seps: Seq<Seq<char>>) -> bool {
    forall|i: int| 0 <= i < seps.len() ==> all_newlines(#[trigger] seps[i])
}

/// `text` is `chunks` in order, separated (and preceded and followed) by
/// the runs of line feeds `seps`, and then `rest`.
pub open spec fn laid_out(seps: Seq<Seq<char>>, chunks: Seq<Seq<char>>, rest: Seq<char>, text: Seq<char>) -> bool {
    &&& seps.len() == chunks.len() + 1
    &&& all_gaps(seps)
    &&& text == interleave(seps, chunks) + rest
}

/// `text` consists of `chunks`, in order and without overlap, with nothing
/// but line feeds before, between and after them.
pub open spec fn pieces_of(chunks: Seq<Seq<char>>, text: Seq<char>) -> bool {
    exists|seps: Seq<Seq<char>>| laid_out(seps, chunks, seq![], text)
}

/// The chunk state `st` has taken in `text`: what is emitted, then the
/// chunk being filled.
pub open spec fn state_laid(st: ChunkState, text: Seq<char>) -> bool {
    exists|seps: Seq<Seq<char>>| #[trigger] laid_out(seps, st.0, st.1, text)
}

proof fn lemma_interleave_grow(seps: Seq<Seq<char>>, chunks: Seq<Seq<char>>, g: Seq<char>)
    requires
        seps.len() == chunks.len() + 1,
    ensures
        interleave(seps.update(seps.len() - 1, seps.last() + g), chunks) == interleave(seps, chunks)
            + g,
{
    let n = seps.len() - 1;
    let up = seps.update(n, seps.last() + g);
    if chunks.len() > 0 {
        assert(up.drop_last() =~= seps.drop_last());
        assert(interleave(up, chunks) =~= interleave(seps, chunks) + g);
    }
}

proof fn lemma_interleave_push(seps: Seq<Seq<char>>, chunks: Seq<Seq<char>>, c: Seq<char>, g: Seq<char>)
    requires
        seps.len() == chunks.len() + 1,
    ensures
        interleave(seps.push(g), chunks.push(c)) == interleave(seps, chunks) + c + g,
{
    assert(seps.push(g).drop_last() =~= seps);
    assert(chunks.push(c).drop_last() =~= chunks);
}

/// `n` empty separators.
pub open spec fn no_gaps(n: nat) -> Seq<Seq<char>> {
    Seq::new(n, |i: int| Seq::<char>::empty())
}

proof fn lemma_interleave_pieces(seps: Seq<Seq<char>>, chunks: Seq<Seq<char>>, hs: Seq<Seq<char>>)
    requires
        seps.len() == chunks.len() + 1,
    ensures
        interleave(seps + no_gaps(hs.len()), chunks + hs) == interleave(seps, chunks) + hs.flatten(),
    decreases hs.len(),
{
    if hs.len() == 0 {
        assert(seps + no_gaps(0) =~= seps);
        assert(chunks + hs =~= chunks);
        assert(hs.flatten() =~= Seq::<char>::empty());
        assert(interleave(seps, chunks) + Seq::<char>::empty() =~= interleave(seps, chunks));
    } else {
        let init = hs.drop_last();
        lemma_interleave_pieces(seps, chunks, init);
        assert(seps + no_gaps(hs.len()) =~= (seps + no_gaps(init.len())).push(Seq::<char>::empty()));
        assert(chunks + hs =~= (chunks + init).push(hs.last()));
        lemma_interleave_push(seps + no_gaps(init.len()), chunks + init, hs.last(), Seq::<char>::empty());
        init.lemma_flatten_push(hs.last());
        assert(init.push(hs.last()) =~= hs);
        assert(interleave(seps, chunks) + init.flatten() + hs.last() + Seq::<char>::empty()
            =~= interleave(seps, chunks) + hs.flatten());
    }
}

proof fn lemma_join_prepend(a: Seq<char>, xs: Seq<Seq<char>>, sep: Seq<char>)
    requires
        xs.len() > 0,
    ensures
        join(seq![a] + xs, sep) == a + sep + join(xs, sep),
    decreases xs.len(),
{
    let all = seq![a] + xs;
    if xs.len() == 1 {
        assert(all.drop_last() =~= seq![a]);
        assert(all.last() == xs[0]);
        assert(join(seq![a], sep) == a);
        assert(join(all, sep) == join(all.drop_last(), sep) + sep + all.last());
        assert(join(xs, sep) == xs[0]);
    } else {
        lemma_join_prepend(a, xs.drop_last(), sep);
        assert(all.drop_last() =~= seq![a] + xs.drop_last());
        assert(all.last() == xs.last());
        assert(join(all, sep) == join(all.drop_last(), sep) + sep + all.last());
        assert(join(xs, sep) == join(xs.drop_last(), sep) + sep + xs.last());
        assert(a + sep + join(xs.drop_last(), sep) + sep + xs.last() =~= a + sep + (join(
            xs.drop_last(),
            sep,
        ) + sep + xs.last()));
    }
}

proof fn lemma_split_join(s: Seq<char>, sep: Seq<char>)
    requires
        sep.len() > 0,
    ensures
        split_on(s, sep).len() > 0,
        join(split_on(s, sep), sep) == s,
    decreases s.len(),
{
    let j = find_from(s, sep, 0);
    if j < 0 || j + sep.len() > s.len() {
    } else {
        lemma_find_from(s, sep, 0);
        let rest = s.skip(j + sep.len());
        lemma_split_join(rest, sep);
        lemma_join_prepend(s.take(j), split_on(rest, sep), sep);
        assert(s.subrange(j, j + sep.len()) == sep);
        assert(s =~= s.take(j) + sep + rest);
    }
}

proof fn lemma_gaps(seps: Seq<Seq<char>>, g: Seq<char>, k: nat)
    requires
        seps.len() > 0,
        all_gaps(seps),
        all_newlines(g),
    ensures
        all_gaps(seps.update(seps.len() - 1, seps.last() + g)),
        all_gaps(seps.push(g)),
        all_gaps(seps + no_gaps(k)),
{
    let n = seps.len() - 1;
    let up = seps.update(n, seps.last() + g);
    assert forall|i: int| 0 <= i < up.len() implies all_newlines(#[trigger] up[i]) by {
        if i == n {
            assert(all_newlines(seps[n]));
            assert forall|j: int| 0 <= j < up[i].len() implies up[i][j] == '\n' by {
                if j < seps[n].len() {
                } else {
                    assert(up[i][j] == g[j - seps[n].len()]);
                }
            }
        }
    }
    let p = seps.push(g);
    assert forall|i: int| 0 <= i < p.len() implies all_newlines(#[trigger] p[i]) by {
        if i < seps.len() {
            assert(p[i] == seps[i]);
        }
    }
    let e = seps + no_gaps(k);
    assert forall|i: int| 0 <= i < e.len() implies all_newlines(#[trigger] e[i]) by {
        if i < seps.len() {
            assert(e[i] == seps[i]);
        } else {
            assert(e[i] == Seq::<char>::empty());
        }
    }
}

proof fn lemma_laid(seps: Seq<Seq<char>>, st: ChunkState, text: Seq<char>)
    requires
        laid_out(seps, st.0, st.1, text),
    ensures
        state_laid(st, text),
{
}

/// A piece too large for one chunk, cut at character boundaries, after the
/// chunks emitted so far.
proof fn lemma_cut_layout(seps: Seq<Seq<char>>, chunks: Seq<Seq<char>>, piece: Seq<char>, max: nat, text: Seq<char>)
    requires
        laid_out(seps, chunks, piece, text),
        chars_fit(piece, max),
    ensures
        state_laid((chunks + hard_split(piece, max), Seq::<char>::empty()), text),
{
    let hs = hard_split(piece, max);
    lemma_hard_split_flatten(piece, max);
    lemma_interleave_pieces(seps, chunks, hs);
    lemma_gaps(seps, Seq::<char>::empty(), hs.len());
    assert(interleave(seps + no_gaps(hs.len()), chunks + hs) + Seq::<char>::empty()
        =~= interleave(seps, chunks) + piece);
    lemma_laid(seps + no_gaps(hs.len()), (chunks + hs, Seq::<char>::empty()), text);
}

/// Before a piece comes in: the chunks so far, with the gap `g` (line feeds)
/// between what was taken in and the piece either closing the chunk being
/// filled or added to the last separator.
proof fn lemma_close_layout(
    seps: Seq<Seq<char>>,
    chunks: Seq<Seq<char>>,
    cur: Seq<char>,
    text: Seq<char>,
    g: Seq<char>,
    piece: Seq<char>,
) -> (r: Seq<Seq<char>>)
    requires
        laid_out(seps, chunks, cur, text),
        all_newlines(g),
    ensures
        cur.len() > 0 ==> laid_out(r, chunks.push(cur), piece, text + g + piece),
        cur.len() == 0 ==> laid_out(r, chunks, piece, text + g + piece),
{
    let n = seps.len() - 1;
    if cur.len() > 0 {
        lemma_interleave_push(seps, chunks, cur, g);
        lemma_gaps(seps, g, 0);
        assert(text + g + piece =~= interleave(seps, chunks) + cur + g + piece);
        seps.push(g)
    } else {
        lemma_interleave_grow(seps, chunks, g);
        lemma_gaps(seps, g, 0);
        assert(text + g + piece =~= interleave(seps, chunks) + g + piece);
        seps.update(n, seps.last() + g)
    }
}

proof fn lemma_line_step_layout(st: ChunkState, line: Seq<char>, max: nat, text: Seq<char>, g: Seq<char>)
    requires
        state_laid(st, text),
        all_newlines(g),
        st.1.len() > 0 ==> g == seq!['\n'],
        chars_fit(line, max),
    ensures
        state_laid(line_step(st, line, max), text + g + line),
{
    let (chunks, cur) = st;
    let seps = choose|seps: Seq<Seq<char>>| laid_out(seps, chunks, cur, text);
    let t2 = text + g + line;
    let cand = if cur.len() == 0 {
        line
    } else {
        cur + seq!['\n'] + line
    };
    if cur.len() == 0 {
        assert(interleave(seps, chunks) + cur =~= interleave(seps, chunks));
    }
    if blen(cand) <= max {
        if cur.len() == 0 {
            let r = lemma_close_layout(seps, chunks, cur, text, g, line);
            lemma_laid(r, line_step(st, line, max), t2);
        } else {
            assert(t2 =~= interleave(seps, chunks) + cand);
            lemma_laid(seps, line_step(st, line, max), t2);
        }
    } else {
        let chunks1 = if cur.len() > 0 {
            chunks.push(cur)
        } else {
            chunks
        };
        let r = lemma_close_layout(seps, chunks, cur, text, g, line);
        if blen(line) > max {
            lemma_cut_layout(r, chunks1, line, max, t2);
        } else {
            lemma_laid(r, line_step(st, line, max), t2);
        }
    }
}

proof fn lemma_line_fold_layout(lines: Seq<Seq<char>>, st: ChunkState, max: nat, text: Seq<char>)
    requires
        state_laid(st, text),
        st.1.len() == 0,
        forall|i: int| 0 <= i < lines.len() ==> chars_fit(#[trigger] lines[i], max),
    ensures
        state_laid(line_fold(lines, st, max), text + join(lines, seq!['\n'])),
    decreases lines.len(),
{
    if lines.len() == 0 {
        assert(text + join(lines, seq!['\n']) =~= text);
    } else {
        let init = lines.drop_last();
        assert forall|i: int| 0 <= i < init.len() implies chars_fit(#[trigger] init[i], max) by {
            assert(init[i] == lines[i]);
        }
        assert(chars_fit(lines.last(), max));
        lemma_line_fold_layout(init, st, max, text);
        if lines.len() == 1 {
            assert(init.len() == 0);
            lemma_line_step_layout(st, lines.last(), max, text + join(init, seq!['\n']), seq![]);
            assert(text + join(init, seq!['\n']) + Seq::<char>::empty() + lines.last()
                =~= text + join(lines, seq!['\n']));
        } else {
            lemma_line_step_layout(
                line_fold(init, st, max),
                lines.last(),
                max,
                text + join(init, seq!['\n']),
                seq!['\n'],
            );
            assert(text + join(init, seq!['\n']) + seq!['\n'] + lines.last() =~= text + join(
                lines,
                seq!['\n'],
            ));
        }
    }
}

proof fn lemma_block_step_layout(st: ChunkState, block: Seq<char>, max: nat, text: Seq<char>, g: Seq<char>)
    requires
        state_laid(st, text),
        all_newlines(g),
        st.1.len() > 0 ==> g == seq!['\n', '\n'],
        chars_fit(block, max),
    ensures
        state_laid(block_step(st, block, max), text + g + block),
{
    let (chunks, cur) = st;
    let seps = choose|seps: Seq<Seq<char>>| laid_out(seps, chunks, cur, text);
    let t2 = text + g + block;
    let cand = if cur.len() == 0 {
        block
    } else {
        cur + seq!['\n', '\n'] + block
    };
    if cur.len() == 0 {
        assert(interleave(seps, chunks) + cur =~= interleave(seps, chunks));
    }
    if blen(cand) <= max {
        if cur.len() == 0 {
            let r = lemma_close_layout(seps, chunks, cur, text, g, block);
            lemma_laid(r, block_step(st, block, max), t2);
        } else {
            assert(t2 =~= interleave(seps, chunks) + cand);
            lemma_laid(seps, block_step(st, block, max), t2);
        }
    } else {
        let chunks1 = if cur.len() > 0 {
            chunks.push(cur)
        } else {
            chunks
        };
        let r = lemma_close_layout(seps, chunks, cur, text, g, block);
        if blen(block) > max {
            let lines = split_on(block, seq!['\n']);
            lemma_split_join(block, seq!['\n']);
            lemma_split_chars_fit(block, seq!['\n'], max);
            let t1 = interleave(r, chunks1);
            assert(t1 + Seq::<char>::empty() =~= t1);
            lemma_laid(r, (chunks1, Seq::<char>::empty()), t1);
            lemma_line_fold_layout(lines, (chunks1, Seq::<char>::empty()), max, t1);
            assert(t1 + join(lines, seq!['\n']) == t2);
        } else {
            lemma_laid(r, block_step(st, block, max), t2);
        }
    }
}

proof fn lemma_block_fold_layout(blocks: Seq<Seq<char>>, max: nat)
    requires
        forall|i: int| 0 <= i < blocks.len() ==> chars_fit(#[trigger] blocks[i], max),
    ensures
        state_laid(block_fold(blocks, max), join(blocks, seq!['\n', '\n'])),
    decreases blocks.len(),
{
    let empty = Seq::<char>::empty();
    let start: ChunkState = (seq![], empty);
    let seps0: Seq<Seq<char>> = seq![empty];
    assert(all_gaps(seps0));
    assert(interleave(seps0, seq![]) + empty =~= empty);
    lemma_laid(seps0, start, empty);
    if blocks.len() > 0 {
        let init = blocks.drop_last();
        assert forall|i: int| 0 <= i < init.len() implies chars_fit(#[trigger] init[i], max) by {
            assert(init[i] == blocks[i]);
        }
        assert(chars_fit(blocks.last(), max));
        lemma_block_fold_layout(init, max);
        if blocks.len() == 1 {
            assert(block_fold(init, max) == start);
            lemma_block_step_layout(start, blocks.last(), max, empty, empty);
            assert(empty + empty + blocks.last() =~= join(blocks, seq!['\n', '\n']));
        } else {
            lemma_block_step_layout(
                block_fold(init, max),
                blocks.last(),
                max,
                join(init, seq!['\n', '\n']),
                seq!['\n', '\n'],
            );
        }
    }
}

/// Chunking only cuts: the chunks are pieces of the text, in order and
/// without overlap, and what lies before, between and after them is line
/// feeds alone.
pub proof fn lemma_chunks_are_pieces(text: Seq<char>, max: nat)
    requires
        chars_fit(text, max),
    ensures
        pieces_of(chunks_of(text, max), text),
{
    let empty = Seq::<char>::empty();
    if blen(text) <= max {
        let seps: Seq<Seq<char>> = seq![empty, empty];
        assert(all_gaps(seps));
        assert(seps.drop_last() =~= seq![empty]);
        assert(seq![text].drop_last() =~= Seq::<Seq<char>>::empty());
        assert(interleave(seq![empty], Seq::<Seq<char>>::empty()) == empty);
        assert(interleave(seps, seq![text]) == interleave(seq![empty], Seq::<Seq<char>>::empty())
            + text + empty);
        assert(interleave(seps, seq![text]) + empty =~= text);
        assert(laid_out(seps, seq![text], seq![], text));
    } else {
        let blocks = split_on(text, seq!['\n', '\n']);
        lemma_split_join(text, seq!['\n', '\n']);
        lemma_split_chars_fit(text, seq!['\n', '\n'], max);
        lemma_block_fold_layout(blocks, max);
        let st = block_fold(blocks, max);
        let seps = choose|seps: Seq<Seq<char>>| laid_out(seps, st.0, st.1, text);
        if st.1.len() > 0 {
            lemma_interleave_push(seps, st.0, st.1, empty);
            lemma_gaps(seps, empty, 0);
            assert(text =~= interleave(seps.push(empty), st.0.push(st.1)) + empty);
            assert(laid_out(seps.push(empty), chunks_of(text, max), seq![], text));
        } else {
            assert(st.1 =~= empty);
            assert(laid_out(seps, chunks_of(text, max), seq![], text));
        }
    }
}

// ---------------------------------------------------------------------------
// The state tables
// ---------------------------------------------------------------------------

/// A downloading state: `downloading`, `forcedDL` or `metaDL`.
pub open spec fn is_downloading_state(state: Seq<char>) -> bool {
    state == "downloading"@ || state == "forcedDL"@ || state == "metaDL"@
}

/// A seeding state: `uploading` or `forcedUP`.
pub open spec fn is_seeding_state(state: Seq<char>) -> bool {
    state == "uploading"@ || state == "forcedUP"@
}

proof fn lemma_state_names_differ()
    ensures
        "downloading"@ != "uploading"@,
        "downloading"@ != "forcedUP"@,
        "forcedDL"@ != "uploading"@,
        "forcedDL"@ != "forcedUP"@,
        "metaDL"@ != "uploading"@,
        "metaDL"@ != "forcedUP"@,
{
    reveal_strlit("downloading");
    reveal_strlit("forcedDL");
    reveal_strlit("metaDL");
    reveal_strlit("uploading");
    reveal_strlit("forcedUP");
    assert("downloading"@.len() != "uploading"@.len());
    assert("downloading"@.len() != "forcedUP"@.len());
    assert("forcedDL"@.len() != "uploading"@.len());
    assert("forcedDL"@[6] != "forcedUP"@[6]);
    assert("metaDL"@.len() != "uploading"@.len());
    assert("metaDL"@.len() != "forcedUP"@.len());
}

/// The listing groups torrents by state: the downloading states
/// (`downloading`, `forcedDL`, `metaDL`) first, then both seeding states
/// (`uploading`, `forcedUP`), then every other state; so a torrent in a
/// downloading state comes before a seeding one, which comes before any
/// other, whatever their progress.
pub proof fn lemma_state_ranks(state: Seq<char>)
    ensures
        state_order(state) == 0 <==> is_downloading_state(state),
        state_order(state) == 2 <==> is_seeding_state(state),
        state_order(state) == 3 <==> !is_downloading_state(state) && !is_seeding_state(state),
        forall|a: TorrentInfo, b: TorrentInfo|
            is_downloading_state(a.state@) && is_seeding_state(b.state@) ==> #[trigger] listed_before(a, b),
        forall|a: TorrentInfo, b: TorrentInfo|
            is_seeding_state(a.state@) && !is_downloading_state(b.state@) && !is_seeding_state(b.state@)
                ==> #[trigger] listed_before(a, b),
{
    lemma_state_names_differ();
}

/// What tells the qBittorrent state names apart: length and a few letters.
spec fn name_key(s: Seq<char>) -> (int, char, char, char) {
    (s.len() as int, s[0], s[2], s[s.len() - 1])
}

/// What tells the status emoji apart: length and first character.
spec fn emoji_key(s: Seq<char>) -> (int, char) {
    (s.len() as int, s[0])
}

/// The status emoji of every state qBittorrent reports: `⏬` downloading,
/// `⏫` seeding, `⏸️` paused, `⏹️` stopped, `⏯️` queued, `🔍` checking, `❗`
/// error, `⚠️` missing files, `⚙️` stalled, `📡` fetching metadata, `💾`
/// allocating, `📦` moving; `❓` exactly for a state not among these.
pub proof fn lemma_emoji_table(state: Seq<char>)
    ensures
        state == "downloading"@ || state == "forcedDL"@ ==> emoji_of(state) == "⏬"@,
        state == "uploading"@ || state == "forcedUP"@ ==> emoji_of(state) == "⏫"@,
        state == "pausedDL"@ || state == "pausedUP"@ ==> emoji_of(state) == "⏸️"@,
        state == "stoppedDL"@ || state == "stoppedUP"@ ==> emoji_of(state) == "⏹️"@,
        state == "queuedDL"@ || state == "queuedUP"@ ==> emoji_of(state) == "⏯️"@,
        state == "checkingDL"@ || state == "checkingUP"@ ==> emoji_of(state) == "🔍"@,
        state == "error"@ ==> emoji_of(state) == "❗"@,
        state == "missingFiles"@ ==> emoji_of(state) == "⚠️"@,
        state == "stalledDL"@ || state == "stalledUP"@ ==> emoji_of(state) == "⚙️"@,
        state == "metaDL"@ ==> emoji_of(state) == "📡"@,
        state == "allocating"@ ==> emoji_of(state) == "💾"@,
        state == "moving"@ ==> emoji_of(state) == "📦"@,
        emoji_of(state) == "❓"@ <==> !(state == "downloading"@ || state == "forcedDL"@ || state
            == "uploading"@ || state == "forcedUP"@ || state == "pausedDL"@ || state == "pausedUP"@
            || state == "stoppedDL"@ || state == "stoppedUP"@ || state == "queuedDL"@ || state
            == "queuedUP"@ || state == "checkingDL"@ || state == "checkingUP"@ || state == "error"@
            || state == "missingFiles"@ || state == "stalledDL"@ || state == "stalledUP"@ || state
            == "metaDL"@ || state == "allocating"@ || state == "moving"@),
{
    reveal_strlit("downloading");
    reveal_strlit("forcedDL");
    reveal_strlit("uploading");
    reveal_strlit("forcedUP");
    reveal_strlit("pausedDL");
    reveal_strlit("pausedUP");
    reveal_strlit("stoppedDL");
    reveal_strlit("stoppedUP");
    reveal_strlit("queuedDL");
    reveal_strlit("queuedUP");
    reveal_strlit("checkingDL");
    reveal_strlit("checkingUP");
    reveal_strlit("error");
    reveal_strlit("missingFiles");
    reveal_strlit("stalledDL");
    reveal_strlit("stalledUP");
    reveal_strlit("metaDL");
    reveal_strlit("allocating");
    reveal_strlit("moving");
    reveal_strlit("⏬");
    reveal_strlit("⏫");
    reveal_strlit("⏸️");
    reveal_strlit("⏹️");
    reveal_strlit("⏯️");
    reveal_strlit("🔍");
    reveal_strlit("❗");
    reveal_strlit("⚠️");
    reveal_strlit("⚙️");
    reveal_strlit("📡");
    reveal_strlit("💾");
    reveal_strlit("📦");
    reveal_strlit("❓");
    assert(name_key("downloading"@) == (11int, 'd', 'w', 'g'));
    assert(name_key("forcedDL"@) == (8int, 'f', 'r', 'L'));
    assert(name_key("uploading"@) == (9int, 'u', 'l', 'g'));
    assert(name_key("forcedUP"@) == (8int, 'f', 'r', 'P'));
    assert(name_key("pausedDL"@) == (8int, 'p', 'u', 'L'));
    assert(name_key("pausedUP"@) == (8int, 'p', 'u', 'P'));
    assert(name_key("stoppedDL"@) == (9int, 's', 'o', 'L'));
    assert(name_key("stoppedUP"@) == (9int, 's', 'o', 'P'));
    assert(name_key("queuedDL"@) == (8int, 'q', 'e', 'L'));
    assert(name_key("queuedUP"@) == (8int, 'q', 'e', 'P'));
    assert(name_key("checkingDL"@) == (10int, 'c', 'e', 'L'));
    assert(name_key("checkingUP"@) == (10int, 'c', 'e', 'P'));
    assert(name_key("error"@) == (5int, 'e', 'r', 'r'));
    assert(name_key("missingFiles"@) == (12int, 'm', 's', 's'));
    assert(name_key("stalledDL"@) == (9int, 's', 'a', 'L'));
    assert(name_key("stalledUP"@) == (9int, 's', 'a', 'P'));
    assert(name_key("metaDL"@) == (6int, 'm', 't', 'L'));
    assert(name_key("allocating"@) == (10int, 'a', 'l', 'g'));
    assert(name_key("moving"@) == (6int, 'm', 'v', 'g'));
    assert(emoji_key("⏬"@) == (1int, '⏬'));
    assert(emoji_key("⏫"@) == (1int, '⏫'));
    assert(emoji_key("⏸️"@) == (2int, '⏸'));
    assert(emoji_key("⏹️"@) == (2int, '⏹'));
    assert(emoji_key("⏯️"@) == (2int, '⏯'));
    assert(emoji_key("🔍"@) == (1int, '🔍'));
    assert(emoji_key("❗"@) == (1int, '❗'));
    assert(emoji_key("⚠️"@) == (2int, '⚠'));
    assert(emoji_key("⚙️"@) == (2int, '⚙'));
    assert(emoji_key("📡"@) == (1int, '📡'));
    assert(emoji_key("💾"@) == (1int, '💾'));
    assert(emoji_key("📦"@) == (1int, '📦'));
    assert(emoji_key("❓"@) == (1int, '❓'));
}

// ---------------------------------------------------------------------------
// Sizes, speeds and durations by range
// ---------------------------------------------------------------------------

proof fn lemma_dec_len(n: nat)
    ensures
        dec(n).len() >= 1,
        n >= 10 ==> dec(n).len() >= 2,
        dec2(n).len() >= 2,
    decreases n,
{
    if n >= 10 {
        lemma_dec_len(n / 10);
    }
}

proof fn lemma_suffix_add(a: Seq<char>, b: Seq<char>)
    ensures
        has_suffix(a + b, b),
{
    assert((a + b).skip((a + b).len() - b.len()) =~= b);
}

/// An ETA is shown as `∞` exactly when it is not positive or reaches one
/// hundred days (8 640 000 s); under an hour it is minutes and two-digit
/// seconds, `M:SS`; from an hour on, `H:MM:SS`.
pub proof fn lemma_eta_shape(seconds: int)
    ensures
        eta_text(seconds) == "∞"@ <==> (seconds <= 0 || seconds >= 8_640_000),
        0 < seconds < 3600 ==> eta_text(seconds) == dec((seconds / 60) as nat) + ":"@ + dec2(
            (seconds % 60) as nat,
        ),
        3600 <= seconds < 8_640_000 ==> eta_text(seconds) == dec((seconds / 3600) as nat) + ":"@
            + dec2(((seconds % 3600) / 60) as nat) + ":"@ + dec2((seconds % 60) as nat),
{
    reveal_strlit("∞");
    reveal_strlit(":");
    if 0 < seconds < 8_640_000 {
        let h = seconds / 3600;
        let m = (seconds % 3600) / 60;
        let sec = seconds % 60;
        lemma_dec_len(h as nat);
        lemma_dec_len(m as nat);
        lemma_dec_len(sec as nat);
        if seconds < 3600 {
            assert(h == 0);
            assert(seconds % 3600 == seconds);
        }
        assert(eta_text(seconds).len() >= 3);
    }
}

/// A speed always reads per second: `0 B/s` for zero, else the size and `/s`.
pub proof fn lemma_speed_per_second(bps: nat)
    ensures
        has_suffix(speed_text(bps), "/s"@),
        bps == 0 ==> speed_text(bps) == "0 B/s"@,
{
    reveal_strlit("0 B/s");
    reveal_strlit("/s");
    if bps == 0 {
        assert("0 B/s"@.skip(3) =~= "/s"@);
    } else {
        lemma_suffix_add(size_text(bps), "/s"@);
    }
}

/// The unit of a size (exactly representable as a double, below 2^53
/// bytes) is that of the largest power of 1024 it reaches: under 1 KiB the
/// bytes themselves with `.0 B`, then `KB`, `MB`, `GB`, `TB`, and `PB` from
/// 1 PiB on.
pub proof fn lemma_size_units(n: nat)
    requires
        n < 0x20_0000_0000_0000,
    ensures
        n < 1024 ==> size_text(n) == dec(n) + ".0 B"@,
        1024 <= n < 0x10_0000 ==> has_suffix(size_text(n), " KB"@),
        0x10_0000 <= n < 0x4000_0000 ==> has_suffix(size_text(n), " MB"@),
        0x4000_0000 <= n < 0x100_0000_0000 ==> has_suffix(size_text(n), " GB"@),
        0x100_0000_0000 <= n < 0x4_0000_0000_0000 ==> has_suffix(size_text(n), " TB"@),
        0x4_0000_0000_0000 <= n ==> has_suffix(size_text(n), " PB"@),
{
    assert(f64_scale(n) == 1);
    assert(f64_value(n) == n);
    let i = unit_index(n);
    let t = div_round_even(n * 10, unit_divisor(i));
    reveal_strlit(" ");
    reveal_strlit(".0 B");
    reveal_strlit("B");
    reveal_strlit("KB");
    reveal_strlit("MB");
    reveal_strlit("GB");
    reveal_strlit("TB");
    reveal_strlit("PB");
    reveal_strlit(" KB");
    reveal_strlit(" MB");
    reveal_strlit(" GB");
    reveal_strlit(" TB");
    reveal_strlit(" PB");
    if n < 1024 {
        assert(unit_divisor(i) == 1);
        assert(t == n * 10);
        assert((n * 10) / 10 == n);
        assert((n * 10) % 10 == 0);
        assert(tenths_text(t) + " "@ + unit_name(i) =~= dec(n) + ".0 B"@);
    } else {
        let tail = " "@ + unit_name(i);
        assert(size_text(n) =~= tenths_text(t) + tail);
        lemma_suffix_add(tenths_text(t), tail);
        assert(1024 <= n < 0x10_0000 ==> tail =~= " KB"@);
        assert(0x10_0000 <= n < 0x4000_0000 ==> tail =~= " MB"@);
        assert(0x4000_0000 <= n < 0x100_0000_0000 ==> tail =~= " GB"@);
        assert(0x100_0000_0000 <= n < 0x4_0000_0000_0000 ==> tail =~= " TB"@);
        assert(0x4_0000_0000_0000 <= n ==> tail =~= " PB"@);
    }
}

} // verus!
