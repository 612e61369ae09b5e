//! What the static file server needs to decide for itself: the content type
//! a file is served with.
use vstd::prelude::*;
use crate::text::chars_of;

verus! {

broadcast use vstd::string::group_string_axioms;

/// The last path segment, ignoring slashes at the end.
pub open spec fn last_segment(p: Seq<char>) -> Seq<char>
    decreases p.len(),
{
    if p.len() > 0 && p.last() == '/' {
        last_segment(p.drop_last())
    } else {
        segment_tail(p, p.len() as int)
    }
}

/// What follows the last slash before position `k`.
pub open spec fn segment_tail(p: Seq<char>, k: int) -> Seq<char>
    decreases k,
{
    if k <= 0 {
        p.subrange(0, p.len() as int)
    } else if p[k - 1] == '/' {
        p.subrange(k, p.len() as int)
    } else {
        segment_tail(p, k - 1)
    }
}

/// A file name's extension: what follows its last dot, unless that dot
/// starts the name.
pub open spec fn extension_of(name: Seq<char>, k: int) -> Seq<char>
    decreases k,
{
    if k <= 1 {
        Seq::empty()
    } else if name[k - 1] == '.' {
        name.subrange(k, name.len() as int)
    } else {
        extension_of(name, k - 1)
    }
}

/// The extension of the file a path names.
pub open spec fn path_extension(p: Seq<char>) -> Seq<char> {
    let name = last_segment(p);
    extension_of(name, name.len() as int)
}

/// The content type for an extension: the page's own file kinds by name,
/// anything else as raw bytes.
pub open spec fn mime_for(ext: Seq<char>) -> Seq<char> {
    if ext == seq!['h', 't', 'm', 'l'] {
        "text/html; charset=utf-8"@
    } else if ext == seq!['j', 's'] || ext == seq!['m', 'j', 's'] {
        "text/javascript; charset=utf-8"@
    } else if ext == seq!['c', 's', 's'] {
        "text/css; charset=utf-8"@
    } else if ext == seq!['w', 'a', 's', 'm'] {
        "application/wasm"@
    } else if ext == seq!['j', 's', 'o', 'n'] {
        "application/json"@
    } else if ext == seq!['p', 'n', 'g'] {
        "image/png"@
    } else if ext == seq!['s', 'v', 'g'] {
        "image/svg+xml"@
    } else if ext == seq!['t', 'x', 't'] || ext == seq!['z', 'p', 'r', 'o', 'f', 'i', 'l', 'e'] {
        "text/plain; charset=utf-8"@
    } else {
        "application/octet-stream"@
    }
}

/// True when a run of characters reads `w`.
fn is(cs: &Vec<char>, w: &str) -> (r: bool)
    ensures
        r == (cs@ == w@),
{
    let ws = chars_of(w);
    if cs.len() != ws.len() {
        return false;
    }
    let mut k: usize = 0;
    while k < cs.len()
        invariant
            ws@ == w@,
            cs@.len() == ws@.len(),
            k <= cs@.len(),
            forall|j: int| 0 <= j < k ==> cs@[j] == ws@[j],
        decreases cs@.len() - k,
    {
        if cs[k] != ws[k] {
            return false;
        }
        k = k + 1;
    }
    proof {
        assert(cs@ =~= ws@);
    }
    true
}

/// The extension of the file a path names; see [`path_extension`].
fn extension(path: &str) -> (e: Vec<char>)
    ensures
        e@ == path_extension(path@),
{
    let p = chars_of(path);
    let mut end = p.len();
    proof {
        assert(p@.take(end as int) =~= p@);
    }
    while end > 0 && p[end - 1] == '/'
        invariant
            p@ == path@,
            end <= p@.len(),
            last_segment(path@) == last_segment(p@.take(end as int)),
        decreases end,
    {
        proof {
            assert(p@.take(end as int).drop_last() =~= p@.take(end - 1));
        }
        end = end - 1;
    }
    let ghost q = p@.take(end as int);
    let mut start = end;
    while start > 0 && p[start - 1] != '/'
        invariant
            p@ == path@,
            start <= end <= p@.len(),
            q == p@.take(end as int),
            segment_tail(q, q.len() as int) == segment_tail(q, start as int),
        decreases start,
    {
        start = start - 1;
    }
    let ghost name = q.subrange(start as int, q.len() as int);
    proof {
        assert(last_segment(q) == segment_tail(q, q.len() as int));
        assert(segment_tail(q, start as int) =~= name);
    }
    let mut k = end;
    while k - start > 1 && p[k - 1] != '.'
        invariant
            p@ == path@,
            start <= end <= p@.len(),
            start <= k <= end,
            q == p@.take(end as int),
            name == q.subrange(start as int, q.len() as int),
            extension_of(name, name.len() as int) == extension_of(name, k - start),
        decreases k,
    {
        k = k - 1;
    }
    let mut e: Vec<char> = Vec::new();
    if k - start > 1 {
        let mut j = k;
        while j < end
            invariant
                p@ == path@,
                k <= j <= end <= p@.len(),
                e@ == p@.subrange(k as int, j as int),
            decreases end - j,
        {
            e.push(p[j]);
            proof {
                assert(p@.subrange(k as int, j + 1) =~= p@.subrange(k as int, j as int).push(p@[j as int]));
            }
            j = j + 1;
        }
        proof {
            assert(name.subrange(k - start, name.len() as int) =~= p@.subrange(k as int, end as int));
        }
    }
    e
}

/// The content type a file is served with, by its extension; see
/// [`mime_for`].
pub fn content_type(path: &str) -> (r: &'static str)
    ensures
        r@ == mime_for(path_extension(path@)),
{
    let e = extension(path);
    proof {
        reveal_strlit("js");
        reveal_strlit("mjs");
        reveal_strlit("html");
        assert("js"@ =~= seq!['j', 's']);
        assert("mjs"@ =~= seq!['m', 'j', 's']);
        assert("html"@ =~= seq!['h', 't', 'm', 'l']);
    }
    if is(&e, "html") {
        "text/html; charset=utf-8"
    } else if is(&e, "js") || is(&e, "mjs") {
        "text/javascript; charset=utf-8"
    } else {
        content_type_rest(&e)
    }
}

/// The content types after the HTML and script ones.
fn content_type_rest(e: &Vec<char>) -> (r: &'static str)
    requires
        e@ != seq!['h', 't', 'm', 'l'],
        e@ != seq!['j', 's'],
        e@ != seq!['m', 'j', 's'],
    ensures
        r@ == mime_for(e@),
{
    proof {
        reveal_strlit("css");
        reveal_strlit("wasm");
        reveal_strlit("json");
        reveal_strlit("png");
        reveal_strlit("svg");
        reveal_strlit("txt");
        reveal_strlit("zprofile");
        assert("css"@ =~= seq!['c', 's', 's']);
        assert("wasm"@ =~= seq!['w', 'a', 's', 'm']);
        assert("json"@ =~= seq!['j', 's', 'o', 'n']);
        assert("png"@ =~= seq!['p', 'n', 'g']);
        assert("svg"@ =~= seq!['s', 'v', 'g']);
        assert("txt"@ =~= seq!['t', 'x', 't']);
        assert("zprofile"@ =~= seq!['z', 'p', 'r', 'o', 'f', 'i', 'l', 'e']);
    }
    if is(e, "css") {
        "text/css; charset=utf-8"
    } else if is(e, "wasm") {
        "application/wasm"
    } else if is(e, "json") {
        "application/json"
    } else if is(e, "png") {
        "image/png"
    } else if is(e, "svg") {
        "image/svg+xml"
    } else if is(e, "txt") || is(e, "zprofile") {
        "text/plain; charset=utf-8"
    } else {
        "application/octet-stream"
    }
}

} // verus!
