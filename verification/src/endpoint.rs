//! Listening endpoints, and the text body that names a batch of objects.
//!
//! A server listens on a TCP address or on a Unix domain socket with
//! optional permissions. A bulk object removal names its victims in a
//! plain text body: one identifier per line.

use crate::id::{parse_id, spec_uuid};
use vstd::prelude::*;
use vstd::string::StrSliceExecFns;

verus! {

/// A Unix domain socket to listen on, with the ownership and mode to
/// apply to the socket file after binding.
#[derive(Debug)]
pub struct UnixDomainSocket {
    pub path: String,
    pub mode: Option<u32>,
    pub owner: Option<String>,
    pub group: Option<String>,
}

/// Where the server listens: a TCP address, or a Unix domain socket.
#[derive(Debug)]
pub enum Endpoint {
    Inet(String),
    Unix(UnixDomainSocket),
}

/// The position of the first line feed in `s` at or after `from`, or
/// `s.len()` if there is none.
pub open spec fn newline_index(s: Seq<char>, from: int) -> int
    decreases s.len() - from,
{
    if from < 0 || from >= s.len() {
        s.len() as int
    } else if s[from] == '\n' {
        from
    } else {
        newline_index(s, from + 1)
    }
}

proof fn lemma_newline_index_bounds(s: Seq<char>, from: int)
    requires
        0 <= from <= s.len(),
    ensures
        from <= newline_index(s, from) <= s.len(),
        newline_index(s, from) < s.len() ==> s[newline_index(s, from)] == '\n',
        forall|p: int| from <= p < newline_index(s, from) ==> s[p] != '\n',
    decreases s.len() - from,
{
    if from < s.len() && s[from] != '\n' {
        lemma_newline_index_bounds(s, from + 1);
    }
}

/// `s` split at line feeds: the lines of a plain text body. A trailing
/// line feed ends the last line rather than opening an empty one.
pub open spec fn spec_lines(s: Seq<char>) -> Seq<Seq<char>>
    decreases s.len(),
{
    if s.len() == 0 {
        Seq::<Seq<char>>::empty()
    } else {
        let i = newline_index(s, 0);
        if 0 <= i < s.len() {
            seq![s.take(i)] + spec_lines(s.skip(i + 1))
        } else {
            seq![s]
        }
    }
}

/// Finds the first line feed at or after `from`, as `newline_index`
/// names it.
fn find_newline(s: &str, from: usize, len: usize) -> (r: usize)
    requires
        from <= len,
        len == s@.len(),
    ensures
        r == newline_index(s@, from as int),
{
    let mut pos = from;
    while pos < len
        invariant
            from <= pos <= len,
            len == s@.len(),
            newline_index(s@, from as int) == newline_index(s@, pos as int),
        decreases len - pos,
    {
        let c = s.get_char(pos);
        if c == '\n' {
            return pos;
        }
        pos = pos + 1;
    }
    pos
}

/// Parses a plain text body of line-feed-separated identifiers, one per
/// line, as a bulk object removal names them. `None` exactly when some
/// line is not the text form of any identifier.
pub fn parse_id_list(body: &str) -> (r: Option<Vec<u128>>)
    ensures
        r matches Some(ids) ==> ids@.len() == spec_lines(body@).len() && forall|k: int|
            0 <= k < ids@.len() ==> spec_uuid(#[trigger] ids@[k]) == spec_lines(body@)[k],
        r is None ==> exists|k: int|
            #![trigger spec_lines(body@)[k]]
            0 <= k < spec_lines(body@).len() && (forall|id: u128|
                #[trigger] spec_uuid(id) != spec_lines(body@)[k]),
{
    let len = body.unicode_len();
    let mut out: Vec<u128> = Vec::new();
    let mut start: usize = 0;
    proof {
        assert(body@.skip(0) =~= body@);
    }
    while start < len
        invariant
            start <= len,
            len == body@.len(),
            spec_prefix_ok(body@, out@, start as int),
        decreases len - start,
    {
        let nl = find_newline(body, start, len);
        proof {
            lemma_newline_index_bounds(body@, start as int);
        }
        let line = body.substring_char(start, nl);
        proof {
            lemma_line_at(body@, start as int);
        }
        let ghost rest = body@.skip(start as int);
        let ghost cur = out@.len() as int;
        let id = match parse_id(line) {
            Some(id) => id,
            None => {
                proof {
                    assert(spec_lines(body@)[cur] == spec_lines(rest)[0]);
                    assert(spec_lines(rest)[0] == line@);
                    assert(spec_lines(body@).len() == cur + spec_lines(rest).len());
                    assert(0 <= cur < spec_lines(body@).len());
                    assert(forall|id: u128| #[trigger] spec_uuid(id) != spec_lines(body@)[cur]);
                }
                return None;
            },
        };
        out.push(id);
        proof {
            assert(spec_uuid(id) == line@);
            assert(spec_lines(body@)[cur] == spec_lines(rest)[0]);
            assert(spec_lines(rest)[0] == line@);
        }
        if nl == len {
            start = len;
            proof {
                assert(spec_lines(rest) =~= seq![rest]);
                assert(body@.skip(len as int) =~= Seq::<char>::empty());
                assert(spec_lines(body@.skip(len as int)) =~= Seq::<Seq<char>>::empty());
                assert(spec_lines(body@).len() == out@.len());
                assert forall|k: int|
                    0 <= k < out@.len() implies spec_uuid(#[trigger] out@[k]) == spec_lines(
                    body@,
                )[k] by {
                    if k < cur {
                        assert(out@[k] == out@.subrange(0, cur)[k]);
                    }
                }
            }
        } else {
            start = nl + 1;
            proof {
                let tail = spec_lines(body@.skip(start as int));
                assert(spec_lines(rest).skip(1) =~= tail);
                assert(spec_lines(rest).len() == 1 + tail.len());
                assert forall|k: int|
                    0 <= k < out@.len() implies spec_uuid(#[trigger] out@[k]) == spec_lines(
                    body@,
                )[k] by {
                    if k < cur {
                        assert(out@[k] == out@.subrange(0, cur)[k]);
                    }
                }
                assert forall|k: int| 0 <= k < tail.len() implies #[trigger] tail[k]
                    == spec_lines(body@)[out@.len() + k] by {
                    assert(tail[k] == spec_lines(rest).skip(1)[k]);
                    assert(spec_lines(rest)[k + 1] == spec_lines(body@)[cur + k + 1]);
                }
            }
        }
    }
    proof {
        assert(body@.skip(len as int) =~= Seq::<char>::empty());
        assert(spec_lines(body@.skip(len as int)) =~= Seq::<Seq<char>>::empty());
    }
    Some(out)
}

/// The identifiers parsed so far cover exactly the lines before
/// `start`, and `start` begins a fresh line.
pub open spec fn spec_prefix_ok(s: Seq<char>, ids: Seq<u128>, start: int) -> bool {
    &&& 0 <= start <= s.len()
    &&& spec_lines(s).len() == ids.len() + spec_lines(s.skip(start)).len()
    &&& forall|k: int|
        0 <= k < ids.len() ==> spec_uuid(#[trigger] ids[k]) == spec_lines(s)[k]
    &&& forall|k: int|
        0 <= k < spec_lines(s.skip(start)).len() ==> #[trigger] spec_lines(s.skip(start))[k]
            == spec_lines(s)[ids.len() + k]
}

/// The first line of the text from `start` on is the text up to the
/// next line feed.
proof fn lemma_line_at(s: Seq<char>, start: int)
    requires
        0 <= start < s.len(),
    ensures
        ({
            let rest = s.skip(start);
            let i = newline_index(s, start);
            &&& newline_index(rest, 0) == i - start
            &&& spec_lines(rest).len() >= 1
            &&& spec_lines(rest)[0] == s.subrange(start, i)
            &&& i < s.len() ==> spec_lines(rest).skip(1) =~= spec_lines(s.skip(i + 1))
        }),
{
    let rest = s.skip(start);
    lemma_newline_shift(s, start, start);
    let i = newline_index(s, start);
    lemma_newline_index_bounds(s, start);
    if i == s.len() {
        assert(rest =~= s.subrange(start, i));
        assert(spec_lines(rest) =~= seq![rest]);
    } else {
        assert(rest.take(i - start) =~= s.subrange(start, i));
        assert(rest.skip(i - start + 1) =~= s.skip(i + 1));
        assert(spec_lines(rest) =~= seq![rest.take(i - start)] + spec_lines(
            rest.skip(i - start + 1),
        ));
        assert(spec_lines(rest).skip(1) =~= spec_lines(s.skip(i + 1)));
    }
}

/// Finding a line feed in a suffix is finding it in the whole, shifted.
proof fn lemma_newline_shift(s: Seq<char>, start: int, from: int)
    requires
        0 <= start <= from <= s.len(),
    ensures
        newline_index(s.skip(start), from - start) == newline_index(s, from) - start,
    decreases s.len() - from,
{
    let rest = s.skip(start);
    if from < s.len() {
        assert(rest[from - start] == s[from]);
        if s[from] != '\n' {
            lemma_newline_shift(s, start, from + 1);
        }
    }
}

} // verus!
