//! Magnet URIs: `magnet:?xt=urn:btih:<40 hex>&dn=<name>&tr=<tracker>`.
//! The query splits at `&` into segments and each segment at its first
//! `=` into key and value; segments without `=` are skipped, later
//! values of a repeated key replace earlier ones, and an unrecognized
//! key rejects the whole URI.

use vstd::prelude::*;

use crate::error::BtError;
use crate::hexutil::is_hex_digit;

verus! {

#[derive(Debug, Clone, PartialEq, Eq)]
pub struct MagnetLink {
    pub hash: String,
    pub file_name: String,
    pub tracker_url: String,
}

/// What `urlencoding::decode` returns for a string: `None` where it
/// fails, the decoded characters where it succeeds.  Both the outcome
/// and the value are functions of the input characters alone.
pub uninterp spec fn url_decoded(s: Seq<char>) -> Option<Seq<char>>;

/// Relies on `urlencoding::decode`: deterministic in the input; it
/// fails only when the percent-decoded bytes are not valid UTF-8.
#[verifier::external_body]
fn url_decode(s: &str) -> (r: Option<String>)
    ensures
        r is Some <==> url_decoded(s@) is Some,
        r matches Some(v) ==> Some(v@) == url_decoded(s@),
{
    match urlencoding::decode(s) {
        Ok(c) => Some(c.into_owned()),
        Err(_) => None,
    }
}

/// The characters of `magnet:?`.
pub open spec fn magnet_prefix() -> Seq<char> {
    seq!['m', 'a', 'g', 'n', 'e', 't', ':', '?']
}

/// The characters of `urn:btih:`.
pub open spec fn urn_btih() -> Seq<char> {
    seq!['u', 'r', 'n', ':', 'b', 't', 'i', 'h', ':']
}

/// The position of the first `c` at or after `from`, or the length.
pub open spec fn find_char(s: Seq<char>, c: char, from: int) -> int
    decreases s.len() - from,
{
    if from < 0 || from >= s.len() {
        s.len() as int
    } else if s[from] == c {
        from
    } else {
        find_char(s, c, from + 1)
    }
}

/// An `xt` value: `urn:btih:` followed by forty hexadecimal digits.
pub open spec fn is_btih(value: Seq<char>) -> bool {
    &&& value.len() == 49
    &&& value.subrange(0, 9) == urn_btih()
    &&& forall|i: int| 9 <= i < 49 ==> is_hex_digit(#[trigger] value[i])
}

/// Walks the query segments from `from`, keeping the latest value of
/// each recognized key.  `None` means the URI is rejected: an unknown
/// key, or an `xt` that is not a well-formed `urn:btih` hash.
pub open spec fn magnet_scan(
    s: Seq<char>,
    from: int,
    xt: Option<Seq<char>>,
    dn: Option<Seq<char>>,
    tr: Option<Seq<char>>,
) -> Option<(Option<Seq<char>>, Option<Seq<char>>, Option<Seq<char>>)>
    decreases s.len() - from, 0int when from >= 0
{
    if from >= s.len() {
        Some((xt, dn, tr))
    } else {
        let e = find_char(s, '&', from);
        let eq = find_char(s, '=', from);
        let next = if e + 1 < s.len() {
            e + 1
        } else {
            s.len() as int
        };
        if e < from || e > s.len() {
            None
        } else if eq >= e {
            magnet_scan(s, next, xt, dn, tr)
        } else {
            let key = s.subrange(from, eq);
            let value = s.subrange(eq + 1, e);
            if key == seq!['x', 't'] {
                if is_btih(value) {
                    magnet_scan(s, next, Some(value.subrange(9, 49)), dn, tr)
                } else {
                    None
                }
            } else if key == seq!['d', 'n'] {
                magnet_scan(s, next, xt, Some(value), tr)
            } else if key == seq!['t', 'r'] {
                magnet_scan(s, next, xt, dn, Some(value))
            } else {
                None
            }
        }
    }
}

/// The view of an optional string.
pub open spec fn opt_view(o: Option<String>) -> Option<Seq<char>> {
    match o {
        Some(s) => Some(s@),
        None => None,
    }
}

/// `find_char` stays at or after `from` and within the length, and
/// finds `c` exactly.
proof fn lemma_find_char(s: Seq<char>, c: char, from: int)
    requires
        0 <= from <= s.len(),
    ensures
        from <= find_char(s, c, from) <= s.len(),
        find_char(s, c, from) < s.len() ==> s[find_char(s, c, from)] == c,
        forall|j: int| from <= j < find_char(s, c, from) ==> s[j] != c,
    decreases s.len() - from,
{
    if from < s.len() && s[from] != c {
        lemma_find_char(s, c, from + 1);
        assert forall|j: int| from <= j < find_char(s, c, from) implies s[j] != c by {
            assert(find_char(s, c, from) == find_char(s, c, from + 1));
            if j > from {
                assert(from + 1 <= j < find_char(s, c, from + 1));
                assert(s[j] != c);
            }
        }
    }
}

/// The position of the first `c` at or after `from`, or the length.
#[verifier::loop_isolation(false)]
fn find_char_exec(s: &str, n: usize, c: char, from: usize) -> (r: usize)
    requires
        n == s@.len(),
        from <= n,
    ensures
        r == find_char(s@, c, from as int),
        from <= r <= n,
        r < n ==> s@[r as int] == c,
{
    proof {
        lemma_find_char(s@, c, from as int);
    }
    let mut i: usize = from;
    while i < n
        invariant
            from <= i <= n,
            find_char(s@, c, from as int) == find_char(s@, c, i as int),
        decreases n - i,
    {
        if s.get_char(i) == c {
            return i;
        }
        i = i + 1;
    }
    i
}

impl MagnetLink {
    /// Parses a magnet URI.  `Ok` holds exactly the recognized fields:
    /// the forty-digit hash from `xt`, the display name from `dn` (or
    /// empty), and the percent-decoded tracker from `tr` (or empty).
    #[verifier::loop_isolation(false)]
    #[verifier::rlimit(60)]
    pub fn parse(link: &str) -> (r: Result<MagnetLink, BtError>)
        ensures
            r is Ok <==> ({
                let scan = magnet_scan(link@.skip(8), 0, None, None, None);
                &&& link@.len() >= 8
                &&& link@.subrange(0, 8) == magnet_prefix()
                &&& scan matches Some(f)
                &&& scan->Some_0.0 is Some
                &&& (scan->Some_0.2 matches Some(t) ==> url_decoded(t) is Some)
            }),
            r matches Ok(m) ==> ({
                let scan = magnet_scan(link@.skip(8), 0, None, None, None);
                &&& scan->Some_0.0 matches Some(h) && m.hash@ == h
                &&& m.file_name@ == (match scan->Some_0.1 {
                    Some(d) => d,
                    None => Seq::<char>::empty(),
                })
                &&& (scan->Some_0.2 matches Some(t) ==> url_decoded(t) == Some(m.tracker_url@))
                &&& (scan->Some_0.2 is None ==> m.tracker_url@ == Seq::<char>::empty())
            }),
            r matches Err(e) ==> e == BtError::InvalidMagnet,
    {
        let total = link.unicode_len();
        if total < 8 {
            return Err(BtError::InvalidMagnet);
        }
        proof {
            reveal_strlit("magnet:?");
            assert(magnet_prefix() =~= "magnet:?"@);
        }
        let prefix = link.substring_char(0, 8);
        if !crate::text::str_eq(prefix, "magnet:?") {
            assert(link@.subrange(0, 8) != magnet_prefix());
            return Err(BtError::InvalidMagnet);
        }
        assert(link@.subrange(0, 8) == magnet_prefix());
        let q = link.substring_char(8, total);
        proof {
            assert(q@ =~= link@.skip(8));
        }
        let n = q.unicode_len();
        let mut from: usize = 0;
        let mut hash: Option<String> = None;
        let mut file_name: Option<String> = None;
        let mut tracker_raw: Option<String> = None;
        while from < n
            invariant
                from <= n + 1,
                n == q@.len(),
                magnet_scan(q@, 0, None, None, None) == magnet_scan(
                    q@,
                    from as int,
                    opt_view(hash),
                    opt_view(file_name),
                    opt_view(tracker_raw),
                ),
            decreases n + 1 - from,
        {
            let e = find_char_exec(q, n, '&', from);
            let eq = find_char_exec(q, n, '=', from);
            proof {
                lemma_find_char(q@, '&', from as int);
                lemma_find_char(q@, '=', from as int);
            }
            let ghost oh = opt_view(hash);
            let ghost od = opt_view(file_name);
            let ghost ot = opt_view(tracker_raw);
            if eq >= e {
                proof {
                    let next: int = if e + 1 < n {
                        e + 1
                    } else {
                        n as int
                    };
                    assert(magnet_scan(q@, from as int, oh, od, ot) == magnet_scan(
                        q@,
                        next,
                        oh,
                        od,
                        ot,
                    ));
                    if e + 1 > n {
                        assert(magnet_scan(q@, e + 1, oh, od, ot) == magnet_scan(
                            q@,
                            n as int,
                            oh,
                            od,
                            ot,
                        ));
                    }
                }
                from = e + 1;
                continue;
            }
            let keylen = eq - from;
            let is_xt = keylen == 2 && q.get_char(from) == 'x' && q.get_char(from + 1) == 't';
            let is_dn = keylen == 2 && q.get_char(from) == 'd' && q.get_char(from + 1) == 'n';
            let is_tr = keylen == 2 && q.get_char(from) == 't' && q.get_char(from + 1) == 'r';
            proof {
                let key = q@.subrange(from as int, eq as int);
                if keylen == 2 {
                    assert(key.len() == 2 && key[0] == q@[from as int] && key[1] == q@[from + 1]);
                    assert(is_xt ==> key =~= seq!['x', 't']);
                    assert(is_dn ==> key =~= seq!['d', 'n']);
                    assert(is_tr ==> key =~= seq!['t', 'r']);
                    assert(!is_xt ==> key != seq!['x', 't']);
                    assert(!is_dn ==> key != seq!['d', 'n']);
                    assert(!is_tr ==> key != seq!['t', 'r']);
                } else {
                    assert(key.len() != 2);
                    assert(key != seq!['x', 't'] && key != seq!['d', 'n'] && key != seq![
                        't',
                        'r',
                    ]);
                }
            }
            if is_xt {
                let ghost value = q@.subrange(eq + 1, e as int);
                if e - (eq + 1) != 49 {
                    assert(!is_btih(value));
                    return Err(BtError::InvalidMagnet);
                }
                let mut j: usize = 0;
                while j < 9
                    invariant
                        j <= 9,
                        eq + 50 == e <= n,
                        n == q@.len(),
                        value == q@.subrange(eq + 1, e as int),
                        forall|k: int| 0 <= k < j ==> value[k] == urn_btih()[k],
                    decreases 9 - j,
                {
                    let c = q.get_char(eq + 1 + j);
                    let expected: char = if j == 0 {
                        'u'
                    } else if j == 1 {
                        'r'
                    } else if j == 2 {
                        'n'
                    } else if j == 3 {
                        ':'
                    } else if j == 4 {
                        'b'
                    } else if j == 5 {
                        't'
                    } else if j == 6 {
                        'i'
                    } else if j == 7 {
                        'h'
                    } else {
                        ':'
                    };
                    if c != expected {
                        assert(value[j as int] != urn_btih()[j as int]);
                        assert(value.subrange(0, 9) != urn_btih());
                        return Err(BtError::InvalidMagnet);
                    }
                    j = j + 1;
                }
                assert(value.subrange(0, 9) =~= urn_btih());
                let mut k: usize = 9;
                while k < 49
                    invariant
                        9 <= k <= 49,
                        eq + 50 == e <= n,
                        n == q@.len(),
                        value == q@.subrange(eq + 1, e as int),
                        forall|t: int| 9 <= t < k ==> is_hex_digit(#[trigger] value[t]),
                    decreases 49 - k,
                {
                    let c = q.get_char(eq + 1 + k);
                    let ok = ('0' <= c && c <= '9') || ('a' <= c && c <= 'f') || ('A' <= c && c
                        <= 'F');
                    if !ok {
                        assert(!is_hex_digit(value[k as int]));
                        return Err(BtError::InvalidMagnet);
                    }
                    k = k + 1;
                }
                assert(is_btih(value));
                let h = q.substring_char(eq + 1 + 9, e);
                proof {
                    assert(h@ =~= value.subrange(9, 49));
                }
                hash = Some(String::from_str(h));
            } else if is_dn {
                let d = q.substring_char(eq + 1, e);
                proof {
                    assert(d@ =~= q@.subrange(eq + 1, e as int));
                }
                file_name = Some(String::from_str(d));
            } else if is_tr {
                let t = q.substring_char(eq + 1, e);
                proof {
                    assert(t@ =~= q@.subrange(eq + 1, e as int));
                }
                tracker_raw = Some(String::from_str(t));
            } else {
                return Err(BtError::InvalidMagnet);
            }
            proof {
                let next: int = if e + 1 < n {
                    e + 1
                } else {
                    n as int
                };
                assert(magnet_scan(q@, from as int, oh, od, ot) == magnet_scan(
                    q@,
                    next,
                    opt_view(hash),
                    opt_view(file_name),
                    opt_view(tracker_raw),
                ));
                if e + 1 > n {
                    assert(magnet_scan(
                        q@,
                        e + 1,
                        opt_view(hash),
                        opt_view(file_name),
                        opt_view(tracker_raw),
                    ) == magnet_scan(
                        q@,
                        n as int,
                        opt_view(hash),
                        opt_view(file_name),
                        opt_view(tracker_raw),
                    ));
                }
            }
            from = e + 1;
        }
        let h = match hash {
            Some(h) => h,
            None => {
                return Err(BtError::InvalidMagnet);
            },
        };
        let file_name = match file_name {
            Some(d) => d,
            None => String::new(),
        };
        let tracker_url = match tracker_raw {
            Some(t) => {
                match url_decode(t.as_str()) {
                    Some(u) => u,
                    None => {
                        return Err(BtError::InvalidMagnet);
                    },
                }
            },
            None => String::new(),
        };
        Ok(MagnetLink { hash: h, file_name, tracker_url })
    }
}

impl core::str::FromStr for MagnetLink {
    type Err = BtError;

    fn from_str(link: &str) -> Result<MagnetLink, BtError> {
        MagnetLink::parse(link)
    }
}

} // verus!
