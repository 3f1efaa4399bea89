//! What the qBittorrent Web API client decides: the torrent records it
//! works with, the addresses and form fields of its requests, how it reads
//! the replies, when a session has expired, and which torrents a state
//! filter keeps.  The HTTP exchanges themselves are made by the caller.
use vstd::prelude::*;
use crate::text::{
    chars_of, contains, has_prefix, has_substring, has_suffix, is_ws, push_char, push_str, str_eq, trim, trimmed,
};

verus! {

/// One torrent as the Web API lists it.
///
/// The API reports `progress` and `ratio` as floating-point numbers; they
/// are held here as what the listing reads of them: the IEEE 754 bit
/// pattern of `progress` (by which torrents are ordered), `progress * 100`
/// rendered with one decimal place, and `ratio` rendered with two.
pub struct TorrentInfo {
    pub hash: String,
    pub name: String,
    pub state: String,
    pub size: u64,
    pub progress_bits: u64,
    pub progress_pct: String,
    pub dlspeed: u64,
    pub upspeed: u64,
    pub num_leechs: u32,
    pub num_seeds: u32,
    pub eta: i64,
    pub ratio_text: String,
    pub completed: u64,
}

impl TorrentInfo {
    /// A copy of this record.
    pub fn duplicate(&self) -> (r: TorrentInfo)
        ensures
            r == *self,
    {
        TorrentInfo {
            hash: self.hash.clone(),
            name: self.name.clone(),
            state: self.state.clone(),
            size: self.size,
            progress_bits: self.progress_bits,
            progress_pct: self.progress_pct.clone(),
            dlspeed: self.dlspeed,
            upspeed: self.upspeed,
            num_leechs: self.num_leechs,
            num_seeds: self.num_seeds,
            eta: self.eta,
            ratio_text: self.ratio_text.clone(),
            completed: self.completed,
        }
    }
}

/// Position of a double on the number line, read from its bit pattern:
/// the magnitude bits, negated when the sign bit is set.  For any two
/// doubles that are not NaN, one is smaller than the other exactly when its
/// rank is smaller, and `-0.0` and `+0.0` share rank 0.
pub open spec fn float_rank(bits: u64) -> int {
    if bits >= 0x8000_0000_0000_0000 {
        -((bits - 0x8000_0000_0000_0000) as int)
    } else {
        bits as int
    }
}

/// The rank of a double given by its bit pattern.
pub fn rank_of_bits(bits: u64) -> (r: i64)
    ensures
        r == float_rank(bits),
{
    if bits >= 0x8000_0000_0000_0000 {
        -((bits - 0x8000_0000_0000_0000) as i64)
    } else {
        bits as i64
    }
}

/// Whether a torrent's state is one of `states`.
pub open spec fn state_in(t: TorrentInfo, states: Seq<&str>) -> bool {
    exists|i: int| 0 <= i < states.len() && states[i]@ == t.state@
}

/// What `filter_by_state` keeps: everything without a filter, else the
/// torrents whose state is listed, in their order.
pub open spec fn filtered(torrents: Seq<TorrentInfo>, filter: Option<Seq<&str>>) -> Seq<
    TorrentInfo,
> {
    match filter {
        None => torrents,
        Some(states) => torrents.filter(|t: TorrentInfo| state_in(t, states)),
    }
}

fn state_listed(state: &String, states: &[&str]) -> (b: bool)
    ensures
        b == exists|i: int| 0 <= i < states@.len() && states@[i]@ == state@,
{
    let mut i: usize = 0;
    while i < states.len()
        invariant
            i <= states@.len(),
            forall|k: int| 0 <= k < i ==> states@[k]@ != state@,
        decreases states@.len() - i,
    {
        if str_eq(states[i], state.as_str()) {
            return true;
        }
        i = i + 1;
    }
    false
}

/// Keep the torrents whose state is one of `filter`, if there is one.
pub fn filter_by_state(torrents: Vec<TorrentInfo>, filter: Option<&[&str]>) -> (r: Vec<
    TorrentInfo,
>)
    ensures
        r@ == filtered(
            torrents@,
            match filter {
                None => None,
                Some(s) => Some(s@),
            },
        ),
{
    match filter {
        None => torrents,
        Some(states) => {
            let ghost pred = |t: TorrentInfo| state_in(t, states@);
            let ghost all = torrents@;
            let mut kept: Vec<TorrentInfo> = Vec::new();
            for t in it: torrents.into_iter()
                invariant
                    it.seq() == all,
                    pred == (|t: TorrentInfo| state_in(t, states@)),
                    kept@ == all.take(it.index() as int).filter(pred),
            {
                proof {
                    assert(all.take(it.index() + 1) =~= all.take(it.index() as int).push(t));
                    all.take(it.index() as int).lemma_filter_push(t, pred);
                }
                let keep = state_listed(&t.state, states);
                proof {
                    assert(pred(t) == state_in(t, states@));
                    assert(keep == pred(t));
                }
                if keep {
                    kept.push(t);
                }
            }
            proof {
                assert(all.take(all.len() as int) =~= all);
            }
            kept
        },
    }
}

// ---------------------------------------------------------------------------
// Sessions
// ---------------------------------------------------------------------------

/// The message of the error raised when the API answers `403 Forbidden`.
pub open spec fn forbidden_message() -> Seq<char> {
    "forbidden"@
}

/// The error raised when the API answers `403 Forbidden`.
pub fn forbidden_error() -> (e: String)
    ensures
        e@ == forbidden_message(),
{
    String::from_str("forbidden")
}

/// Whether an HTTP status is `403 Forbidden`.
pub fn is_forbidden_status(status: u16) -> (b: bool)
    ensures
        b == (status == 403),
{
    status == 403
}

/// Whether an error (by its message) means the session has expired: the
/// message mentions `forbidden`.
pub fn is_forbidden(message: &str) -> (b: bool)
    ensures
        b == has_substring(message@, "forbidden"@),
{
    contains(message, "forbidden")
}

/// The error raised for a `403` answer is recognised as an expired session,
/// so the request is retried after logging in again.
pub proof fn lemma_forbidden_is_recognised()
    ensures
        has_substring(forbidden_message(), "forbidden"@),
{
    let m = forbidden_message();
    assert(m.subrange(0, m.len() as int) =~= m);
    assert(crate::text::occurs_at(m, "forbidden"@, 0));
}

/// Which try of a request an outcome belongs to.
#[derive(Debug, Clone, Copy, PartialEq, Eq, Structural)]
pub enum Attempt {
    First,
    Retry,
}

/// What the client does once a try of a request has an outcome.
#[derive(Debug, Clone, Copy, PartialEq, Eq, Structural)]
pub enum AfterTry {
    /// Hand the outcome to the caller.
    Finish,
    /// Log in again (failing the request if that fails), then try once more.
    Relogin,
}

/// The client logs in again and retries exactly when the first try failed
/// with an error meaning the session has expired.
pub open spec fn after_try_spec(attempt: Attempt, error: Option<Seq<char>>) -> AfterTry {
    match (attempt, error) {
        (Attempt::First, Some(e)) => if has_substring(e, "forbidden"@) {
            AfterTry::Relogin
        } else {
            AfterTry::Finish
        },
        _ => AfterTry::Finish,
    }
}

/// Decides what follows a try of a request, given its error message if it
/// failed.
pub fn after_try(attempt: Attempt, error: Option<&str>) -> (r: AfterTry)
    ensures
        r == after_try_spec(attempt, opt_view(error)),
{
    match (attempt, error) {
        (Attempt::First, Some(e)) => if is_forbidden(e) {
            AfterTry::Relogin
        } else {
            AfterTry::Finish
        },
        _ => AfterTry::Finish,
    }
}

/// A request is tried at most twice: a retry always finishes.
pub proof fn lemma_retry_once(error: Option<Seq<char>>)
    ensures
        after_try_spec(Attempt::Retry, error) == AfterTry::Finish,
{
}

/// A first try answered `403 Forbidden` is retried after logging in again.
pub proof fn lemma_forbidden_retried()
    ensures
        after_try_spec(Attempt::First, Some(forbidden_message())) == AfterTry::Relogin,
{
    lemma_forbidden_is_recognised();
}

// ---------------------------------------------------------------------------
// Addresses and forms
// ---------------------------------------------------------------------------

/// Number of trailing `/` characters of `s`.
pub open spec fn trailing_slashes(s: Seq<char>) -> nat
    decreases s.len(),
{
    if s.len() > 0 && s.last() == '/' {
        1 + trailing_slashes(s.drop_last())
    } else {
        0
    }
}

/// `s` without its trailing slashes (`trim_end_matches('/')`).
pub open spec fn without_trailing_slashes(s: Seq<char>) -> Seq<char> {
    s.take(s.len() - trailing_slashes(s))
}

proof fn lemma_trailing_slashes(s: Seq<char>)
    ensures
        trailing_slashes(s) <= s.len(),
    decreases s.len(),
{
    if s.len() > 0 && s.last() == '/' {
        lemma_trailing_slashes(s.drop_last());
    }
}

/// The Web UI address without trailing slashes, as the client keeps it.
pub fn base_url(qb_url: &str) -> (r: String)
    ensures
        r@ == without_trailing_slashes(qb_url@),
{
    let v = chars_of(qb_url);
    let mut k = v.len();
    assert(v@.take(k as int) =~= v@);
    while k > 0 && v[k - 1] == '/'
        invariant
            k <= v.len(),
            v@ == qb_url@,
            trailing_slashes(v@) == (v.len() - k) + trailing_slashes(v@.take(k as int)),
        decreases k,
    {
        proof {
            assert(v@.take(k as int).drop_last() =~= v@.take(k - 1));
        }
        k = k - 1;
    }
    proof {
        assert(v@.take(k as int) =~= v@.take(k as int));
        if k > 0 {
            assert(v@.take(k as int).last() == v@[k - 1]);
        }
        lemma_trailing_slashes(v@);
    }
    crate::text::string_of(&v, 0, k)
}

/// Path of the login endpoint.
pub open spec fn login_path() -> Seq<char> {
    "/api/v2/auth/login"@
}

/// Path of the endpoint listing torrents.
pub open spec fn list_path() -> Seq<char> {
    "/api/v2/torrents/info"@
}

/// Path of the endpoint adding torrents.
pub open spec fn add_path() -> Seq<char> {
    "/api/v2/torrents/add"@
}

/// Address of the login endpoint under `base`.
pub fn login_url(base: &str) -> (r: String)
    ensures
        r@ == base@ + login_path(),
{
    let mut s = String::from_str(base);
    push_str(&mut s, "/api/v2/auth/login");
    s
}

/// Address of the endpoint listing torrents under `base`.
pub fn list_url(base: &str) -> (r: String)
    ensures
        r@ == base@ + list_path(),
{
    let mut s = String::from_str(base);
    push_str(&mut s, "/api/v2/torrents/info");
    s
}

/// Address of the endpoint adding torrents under `base`.
pub fn add_url(base: &str) -> (r: String)
    ensures
        r@ == base@ + add_path(),
{
    let mut s = String::from_str(base);
    push_str(&mut s, "/api/v2/torrents/add");
    s
}

/// A form field: name and value.
pub type Field = (String, String);

/// Views of form fields.
pub open spec fn field_views(fs: Seq<Field>) -> Seq<(Seq<char>, Seq<char>)> {
    fs.map_values(|f: Field| (f.0@, f.1@))
}

/// The options sent with every add request: `savepath` when a non-empty
/// save path is given, `paused=true` when paused, `category` when a
/// non-empty category is given, in that order.
pub open spec fn option_fields(save_path: Option<Seq<char>>, paused: bool, category: Option<
    Seq<char>,
>) -> Seq<(Seq<char>, Seq<char>)> {
    let a: Seq<(Seq<char>, Seq<char>)> = match save_path {
        Some(sp) if sp.len() > 0 => seq![("savepath"@, sp)],
        _ => seq![],
    };
    let b: Seq<(Seq<char>, Seq<char>)> = if paused {
        seq![("paused"@, "true"@)]
    } else {
        seq![]
    };
    let c: Seq<(Seq<char>, Seq<char>)> = match category {
        Some(cat) if cat.len() > 0 => seq![("category"@, cat)],
        _ => seq![],
    };
    a + b + c
}

/// The view of an optional string slice.
pub open spec fn opt_view(o: Option<&str>) -> Option<Seq<char>> {
    match o {
        Some(s) => Some(s@),
        None => None,
    }
}

fn push_field(fs: &mut Vec<Field>, name: &str, value: &str)
    ensures
        field_views(final(fs)@) == field_views(old(fs)@).push((name@, value@)),
{
    fs.push((String::from_str(name), String::from_str(value)));
    assert(field_views(fs@) =~= field_views(old(fs)@).push((name@, value@)));
}

/// The option fields of an add request.
pub fn add_option_fields(save_path: Option<&str>, paused: bool, category: Option<&str>) -> (r: Vec<
    Field,
>)
    ensures
        field_views(r@) == option_fields(opt_view(save_path), paused, opt_view(category)),
{
    let mut fs: Vec<Field> = Vec::new();
    let ghost f0 = field_views(fs@);
    assert(f0 =~= Seq::<(Seq<char>, Seq<char>)>::empty());
    if let Some(sp) = save_path {
        if !sp.is_empty() {
            push_field(&mut fs, "savepath", sp);
        }
    }
    let ghost fa = field_views(fs@);
    if paused {
        push_field(&mut fs, "paused", "true");
    }
    let ghost fb = field_views(fs@);
    if let Some(cat) = category {
        if !cat.is_empty() {
            push_field(&mut fs, "category", cat);
        }
    }
    proof {
        assert(field_views(fs@) =~= option_fields(
            opt_view(save_path),
            paused,
            opt_view(category),
        ));
    }
    fs
}

/// The form of a request adding a torrent by magnet link or URL: `urls`
/// first, then the option fields.
pub fn add_url_form(url: &str, save_path: Option<&str>, paused: bool, category: Option<&str>) -> (r:
    Vec<Field>)
    ensures
        field_views(r@) == seq![("urls"@, url@)] + option_fields(
            opt_view(save_path),
            paused,
            opt_view(category),
        ),
{
    let mut fs: Vec<Field> = Vec::new();
    push_field(&mut fs, "urls", url);
    let opts = add_option_fields(save_path, paused, category);
    let ghost f1 = field_views(fs@);
    let mut i: usize = 0;
    while i < opts.len()
        invariant
            i <= opts.len(),
            field_views(fs@) == f1 + field_views(opts@).take(i as int),
        decreases opts.len() - i,
    {
        let (n, v) = (&opts[i].0, &opts[i].1);
        push_field(&mut fs, n.as_str(), v.as_str());
        assert(field_views(opts@).take(i + 1) =~= field_views(opts@).take(i as int).push(
            (n@, v@),
        ));
        i = i + 1;
    }
    assert(field_views(opts@).take(opts.len() as int) =~= field_views(opts@));
    assert(f1 =~= seq![("urls"@, url@)]);
    fs
}

// ---------------------------------------------------------------------------
// Replies
// ---------------------------------------------------------------------------

/// How the API confirms a request: `Ok.` once trimmed.
pub open spec fn confirms(body: Seq<char>) -> bool {
    trim(body) == "Ok."@
}

/// What a login answered with `body` comes to.
pub open spec fn login_result(body: Seq<char>) -> Result<(), Seq<char>> {
    if confirms(body) {
        Ok(())
    } else {
        Err("qBittorrent login failed: "@ + trim(body))
    }
}

/// Reads the answer to a login.
pub fn login_outcome(body: &str) -> (r: Result<(), String>)
    ensures
        match (r, login_result(body@)) {
            (Ok(()), Ok(())) => true,
            (Err(e), Err(m)) => e@ == m,
            _ => false,
        },
{
    let t = trimmed(body);
    if str_eq(t.as_str(), "Ok.") {
        Ok(())
    } else {
        let mut e = String::from_str("qBittorrent login failed: ");
        push_str(&mut e, t.as_str());
        Err(e)
    }
}

/// What is being added: a magnet link or URL, or a `.torrent` file.
pub enum Upload {
    Link,
    File,
}

/// What an add request answered with `body` (status other than 403) comes
/// to: accepted when the body is `Ok.` or mentions `Duplicate`, else
/// rejected with the trimmed body.
pub open spec fn add_result(body: Seq<char>, upload: Upload) -> Result<Seq<char>, Seq<char>> {
    if confirms(body) || has_substring(body, "Duplicate"@) {
        Ok(
            match upload {
                Upload::Link => "Torrent added successfully"@,
                Upload::File => "Torrent file added successfully"@,
            },
        )
    } else {
        Err(
            match upload {
                Upload::Link => "qBittorrent rejected torrent: "@,
                Upload::File => "qBittorrent rejected torrent file: "@,
            } + trim(body),
        )
    }
}

/// Reads the answer to an add request.
pub fn add_outcome(body: &str, upload: Upload) -> (r: Result<String, String>)
    ensures
        match (r, add_result(body@, upload)) {
            (Ok(a), Ok(b)) => a@ == b,
            (Err(a), Err(b)) => a@ == b,
            _ => false,
        },
{
    let t = trimmed(body);
    if str_eq(t.as_str(), "Ok.") || contains(body, "Duplicate") {
        match upload {
            Upload::Link => Ok(String::from_str("Torrent added successfully")),
            Upload::File => Ok(String::from_str("Torrent file added successfully")),
        }
    } else {
        let mut e = match upload {
            Upload::Link => String::from_str("qBittorrent rejected torrent: "),
            Upload::File => String::from_str("qBittorrent rejected torrent file: "),
        };
        push_str(&mut e, t.as_str());
        Err(e)
    }
}

/// Which optional fields an add request carries depends on each option
/// alone: `savepath` exactly when a non-empty save path is given, `paused`
/// (set to `true`) exactly when the torrent is to start paused, and
/// `category` exactly when a non-empty category is given, whatever the other
/// options are. No other field is added.
pub proof fn lemma_option_fields(save_path: Option<Seq<char>>, paused: bool, category: Option<Seq<char>>)
    ensures
        forall|v: Seq<char>|
            #![trigger option_fields(save_path, paused, category).contains(("category"@, v))]
            option_fields(save_path, paused, category).contains(("category"@, v)) <==> (category
                == Some(v) && v.len() > 0),
        forall|v: Seq<char>|
            #![trigger option_fields(save_path, paused, category).contains(("savepath"@, v))]
            option_fields(save_path, paused, category).contains(("savepath"@, v)) <==> (save_path
                == Some(v) && v.len() > 0),
        option_fields(save_path, paused, category).contains(("paused"@, "true"@)) <==> paused,
        forall|i: int|
            0 <= i < option_fields(save_path, paused, category).len() ==> {
                let n = (#[trigger] option_fields(save_path, paused, category)[i]).0;
                n == "savepath"@ || n == "paused"@ || n == "category"@
            },
{
    reveal_strlit("savepath");
    reveal_strlit("paused");
    reveal_strlit("category");
    reveal_strlit("true");
    let fs = option_fields(save_path, paused, category);
    let a: Seq<(Seq<char>, Seq<char>)> = match save_path {
        Some(p) if p.len() > 0 => seq![("savepath"@, p)],
        _ => seq![],
    };
    let b: Seq<(Seq<char>, Seq<char>)> = if paused {
        seq![("paused"@, "true"@)]
    } else {
        seq![]
    };
    let c: Seq<(Seq<char>, Seq<char>)> = match category {
        Some(x) if x.len() > 0 => seq![("category"@, x)],
        _ => seq![],
    };
    assert(fs == a + b + c);
    assert("savepath"@ != "category"@) by {
        assert("savepath"@[0] != "category"@[0]);
    }
    assert("paused"@ != "category"@) by {
        assert("paused"@.len() != "category"@.len());
    }
    assert("paused"@ != "savepath"@) by {
        assert("paused"@.len() != "savepath"@.len());
    }
    assert forall|v: Seq<char>|
        #![trigger fs.contains(("category"@, v))]
        fs.contains(("category"@, v)) <==> (category == Some(v) && v.len() > 0) by {
        if category == Some(v) && v.len() > 0 {
            assert(fs[(a.len() + b.len()) as int] == ("category"@, v));
        }
        if fs.contains(("category"@, v)) {
            let k = choose|k: int| 0 <= k < fs.len() && fs[k] == ("category"@, v);
            if k < a.len() {
                assert(fs[k] == a[k]);
            } else if k < a.len() + b.len() {
                assert(fs[k] == b[k - a.len()]);
            } else {
                assert(fs[k] == c[k - a.len() - b.len()]);
            }
        }
    }
    assert forall|v: Seq<char>|
        #![trigger fs.contains(("savepath"@, v))]
        fs.contains(("savepath"@, v)) <==> (save_path == Some(v) && v.len() > 0) by {
        if save_path == Some(v) && v.len() > 0 {
            assert(fs[0] == ("savepath"@, v));
        }
        if fs.contains(("savepath"@, v)) {
            let k = choose|k: int| 0 <= k < fs.len() && fs[k] == ("savepath"@, v);
            if k < a.len() {
                assert(fs[k] == a[k]);
            } else if k < a.len() + b.len() {
                assert(fs[k] == b[k - a.len()]);
            } else {
                assert(fs[k] == c[k - a.len() - b.len()]);
            }
        }
    }
    if paused {
        assert(fs[a.len() as int] == ("paused"@, "true"@));
    }
    if fs.contains(("paused"@, "true"@)) {
        let k = choose|k: int| 0 <= k < fs.len() && fs[k] == ("paused"@, "true"@);
        if k < a.len() {
            assert(fs[k] == a[k]);
        } else if k < a.len() + b.len() {
            assert(fs[k] == b[k - a.len()]);
        } else {
            assert(fs[k] == c[k - a.len() - b.len()]);
        }
    }
    assert forall|i: int| 0 <= i < fs.len() implies {
        let n = (#[trigger] fs[i]).0;
        n == "savepath"@ || n == "paused"@ || n == "category"@
    } by {
        if i < a.len() {
            assert(fs[i] == a[i]);
        } else if i < a.len() + b.len() {
            assert(fs[i] == b[i - a.len()]);
        } else {
            assert(fs[i] == c[i - a.len() - b.len()]);
        }
    }
}

/// Whether qBittorrent accepted an added torrent does not depend on how it
/// was uploaded: an answer that trims to `Ok.` or mentions `Duplicate` (the
/// torrent is already there) accepts it, any other answer rejects it, and a
/// rejection quotes the trimmed answer.
pub proof fn lemma_add_accepted(body: Seq<char>, u: Upload, v: Upload)
    ensures
        add_result(body, u) is Ok <==> add_result(body, v) is Ok,
        add_result(body, u) is Ok <==> (trim(body) == "Ok."@ || has_substring(body, "Duplicate"@)),
        add_result(body, u) matches Err(e) ==> has_suffix(e, trim(body)),
{
    if let Err(e) = add_result(body, u) {
        let pre = match u {
            Upload::Link => "qBittorrent rejected torrent: "@,
            Upload::File => "qBittorrent rejected torrent file: "@,
        };
        assert(e == pre + trim(body));
        assert(e.subrange(e.len() - trim(body).len(), e.len() as int) =~= trim(body));
    }
}

/// A login is accepted exactly when the answer trims to `Ok.`; a refusal
/// quotes the trimmed answer.
pub proof fn lemma_login_accepted(body: Seq<char>)
    ensures
        login_result(body) is Ok <==> trim(body) == "Ok."@,
        login_result(body) matches Err(e) ==> has_suffix(e, trim(body)),
{
    if let Err(e) = login_result(body) {
        assert(e.subrange(e.len() - trim(body).len(), e.len() as int) =~= trim(body));
    }
}

/// Stripping trailing slashes keeps the address up to its last character
/// that is not a slash: the result is a prefix of the address, does not end
/// with `/`, and only slashes follow it.
pub proof fn lemma_base_url_strips(s: Seq<char>)
    ensures
        has_prefix(s, without_trailing_slashes(s)),
        without_trailing_slashes(s).len() == 0 || without_trailing_slashes(s).last() != '/',
        forall|i: int|
            without_trailing_slashes(s).len() <= i < s.len() ==> #[trigger] s[i] == '/',
    decreases s.len(),
{
    lemma_trailing_slashes(s);
    let w = without_trailing_slashes(s);
    assert(s.take(w.len() as int) =~= w);
    if s.len() > 0 && s.last() == '/' {
        let d = s.drop_last();
        lemma_base_url_strips(d);
        lemma_trailing_slashes(d);
        assert(w =~= without_trailing_slashes(d));
        assert forall|i: int| w.len() <= i < s.len() implies #[trigger] s[i] == '/' by {
            if i < d.len() {
                assert(d[i] == s[i]);
            }
        }
    }
}

/// The client talks to the Web API's endpoints under `/api/v2`: it logs in
/// at `auth/login`, lists at `torrents/info` and adds at `torrents/add`,
/// each under the address kept without trailing slashes.
pub proof fn lemma_endpoints(base: Seq<char>)
    ensures
        base + login_path() == base + "/api/v2/auth/login"@,
        base + list_path() == base + "/api/v2/torrents/info"@,
        base + add_path() == base + "/api/v2/torrents/add"@,
{
}

} // verus!
