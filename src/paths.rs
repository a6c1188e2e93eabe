//! Paths as sequences of characters: components, file name, extension and
//! the directory key that groups files into directories.

use vstd::prelude::*;

verus! {

/// ASCII lower case of one character; every other character is kept.
pub open spec fn ascii_lower(c: char) -> char {
    if 'A' <= c && c <= 'Z' {
        ((c as u8) + 32u8) as char
    } else {
        c
    }
}

/// ASCII lower case of a whole sequence.
pub open spec fn lower_seq(s: Seq<char>) -> Seq<char> {
    s.map_values(|c: char| ascii_lower(c))
}

/// ASCII lower case of one character.
pub fn lower_char(c: char) -> (r: char)
    ensures
        r == ascii_lower(c),
{
    if 'A' <= c && c <= 'Z' {
        ((c as u8) + 32u8) as char
    } else {
        c
    }
}

/// The characters of a string, one by one.
pub fn chars_of(s: &str) -> (r: Vec<char>)
    ensures
        r@ == s@,
{
    let mut r: Vec<char> = Vec::new();
    for c in it: s.chars()
        invariant
            r@ == it.seq().take(it.index() as int),
    {
        r.push(c);
    }
    r
}

/// Relies on `FromIterator<char>` for `String`: the string holds the
/// characters in the order given.
#[verifier::external_body]
pub(crate) fn string_of(v: &Vec<char>) -> (r: String)
    ensures
        r@ == v@,
{
    v.iter().collect()
}


/// A segment that names nothing: empty (between two slashes, or at either
/// end) or `.`.
pub open spec fn is_blank_segment(seg: Seq<char>) -> bool {
    seg.len() == 0 || seg == seq!['.']
}

/// The segment `..`.
pub open spec fn is_parent_segment(seg: Seq<char>) -> bool {
    seg == seq!['.', '.']
}

/// Closes one segment: a normal segment is kept, `..` is remembered as
/// the last named one, a blank one changes nothing.
pub open spec fn close_segment(done: Seq<Seq<char>>, ends_in_parent: bool, seg: Seq<char>) -> (
    Seq<Seq<char>>,
    bool,
) {
    if is_blank_segment(seg) {
        (done, ends_in_parent)
    } else if is_parent_segment(seg) {
        (done, true)
    } else {
        (done.push(seg), false)
    }
}

/// Left-to-right reading of a path: the normal components closed so far,
/// whether the last named segment was `..`, and the segment being read.
pub open spec fn scan_path(p: Seq<char>) -> (Seq<Seq<char>>, bool, Seq<char>)
    decreases p.len(),
{
    if p.len() == 0 {
        (Seq::empty(), false, Seq::empty())
    } else {
        let (done, ends_in_parent, cur) = scan_path(p.drop_last());
        if p.last() == '/' {
            let (d, e) = close_segment(done, ends_in_parent, cur);
            (d, e, Seq::empty())
        } else {
            (done, ends_in_parent, cur.push(p.last()))
        }
    }
}

/// The whole path read: its normal components, and whether it ends in `..`.
pub open spec fn split_spec(p: Seq<char>) -> (Seq<Seq<char>>, bool) {
    let (done, ends_in_parent, cur) = scan_path(p);
    close_segment(done, ends_in_parent, cur)
}

/// The normal components of a path: the segments between slashes, leaving
/// out empty ones, `.` and `..`.
pub open spec fn components(p: Seq<char>) -> Seq<Seq<char>> {
    split_spec(p).0
}

/// The file name: the last normal component, unless the path ends in `..`
/// or has no normal component.
pub open spec fn file_name(p: Seq<char>) -> Option<Seq<char>> {
    let (comps, ends_in_parent) = split_spec(p);
    if ends_in_parent || comps.len() == 0 {
        None
    } else {
        Some(comps.last())
    }
}

/// Index of the last `.` of `s`, or -1.
pub open spec fn last_dot(s: Seq<char>) -> int
    decreases s.len(),
{
    if s.len() == 0 {
        -1
    } else if s.last() == '.' {
        s.len() - 1
    } else {
        last_dot(s.drop_last())
    }
}

/// The extension: what follows the last `.` of the file name, where that
/// `.` is not the name's first character.
pub open spec fn extension(p: Seq<char>) -> Option<Seq<char>> {
    match file_name(p) {
        None => None,
        Some(name) => {
            let i = last_dot(name);
            if i <= 0 {
                None
            } else {
                Some(name.subrange(i + 1, name.len() as int))
            }
        },
    }
}

/// The parts joined with `/` between them.
pub open spec fn join(parts: Seq<Seq<char>>) -> Seq<char>
    decreases parts.len(),
{
    if parts.len() == 0 {
        Seq::empty()
    } else if parts.len() == 1 {
        parts[0]
    } else {
        join(parts.drop_last()) + seq!['/'] + parts.last()
    }
}

/// The directory key of a file at `depth`: its first `depth` directories
/// joined with `/`, fewer where the file lies higher; `.` where none remain.
pub open spec fn dir_key_of(p: Seq<char>, depth: nat) -> Seq<char> {
    let comps = components(p);
    if comps.len() <= 1 || depth == 0 {
        seq!['.']
    } else {
        let dirs = (comps.len() - 1) as nat;
        join(comps.take(if depth < dirs { depth as int } else { dirs as int }))
    }
}

/// The character sequences of a list of character vectors.
pub open spec fn views(v: Seq<Vec<char>>) -> Seq<Seq<char>> {
    v.map_values(|x: Vec<char>| x@)
}

fn is_blank(seg: &Vec<char>) -> (r: bool)
    ensures
        r == is_blank_segment(seg@),
{
    if seg.len() == 0 {
        true
    } else if seg.len() == 1 && seg[0] == '.' {
        assert(seg@ =~= seq!['.']);
        true
    } else {
        false
    }
}

fn is_parent(seg: &Vec<char>) -> (r: bool)
    ensures
        r == is_parent_segment(seg@),
{
    if seg.len() == 2 && seg[0] == '.' && seg[1] == '.' {
        assert(seg@ =~= seq!['.', '.']);
        true
    } else {
        false
    }
}

fn close(done: &mut Vec<Vec<char>>, ends_in_parent: &mut bool, seg: Vec<char>)
    ensures
        (views(final(done)@), *final(ends_in_parent)) == close_segment(
            views(old(done)@),
            *old(ends_in_parent),
            seg@,
        ),
{
    if is_blank(&seg) {
    } else if is_parent(&seg) {
        *ends_in_parent = true;
    } else {
        let ghost before = done@;
        done.push(seg);
        *ends_in_parent = false;
        assert(views(done@) =~= views(before).push(seg@));
    }
}

/// The normal components of a path, and whether it ends in `..`.
pub fn split_path(p: &Vec<char>) -> (r: (Vec<Vec<char>>, bool))
    ensures
        (views(r.0@), r.1) == split_spec(p@),
{
    let mut done: Vec<Vec<char>> = Vec::new();
    let mut ends_in_parent = false;
    let mut cur: Vec<char> = Vec::new();
    let mut i: usize = 0;
    assert(views(done@) =~= Seq::<Seq<char>>::empty());
    while i < p.len()
        invariant
            i <= p.len(),
            (views(done@), ends_in_parent, cur@) == scan_path(p@.take(i as int)),
        decreases p.len() - i,
    {
        assert(p@.take(i + 1).drop_last() =~= p@.take(i as int));
        let c = p[i];
        if c == '/' {
            let seg = cur;
            cur = Vec::new();
            close(&mut done, &mut ends_in_parent, seg);
        } else {
            cur.push(c);
        }
        i += 1;
    }
    assert(p@.take(p.len() as int) =~= p@);
    close(&mut done, &mut ends_in_parent, cur);
    (done, ends_in_parent)
}

/// The extension of a path's file name, as `Path::extension` reads it.
pub fn extension_of(p: &Vec<char>) -> (r: Option<Vec<char>>)
    ensures
        match r {
            Some(e) => extension(p@) == Some(e@),
            None => extension(p@) is None,
        },
{
    let (comps, ends_in_parent) = split_path(p);
    if ends_in_parent || comps.len() == 0 {
        return None;
    }
    let name = &comps[comps.len() - 1];
    assert(name@ == views(comps@).last());
    let mut i: usize = name.len();
    assert(name@.take(name@.len() as int) =~= name@);
    while i > 0 && name[i - 1] != '.'
        invariant
            i <= name.len(),
            last_dot(name@) == last_dot(name@.take(i as int)),
        decreases i,
    {
        assert(name@.take(i as int).drop_last() =~= name@.take(i - 1));
        i -= 1;
    }
    if i > 0 {
        assert(name@.take(i as int).drop_last() =~= name@.take(i - 1));
    }
    assert(name@.take(name@.len() as int) =~= name@);
    if i <= 1 {
        return None;
    }
    let mut e: Vec<char> = Vec::new();
    let mut j: usize = i;
    while j < name.len()
        invariant
            i <= j <= name.len(),
            e@ == name@.subrange(i as int, j as int),
        decreases name.len() - j,
    {
        e.push(name[j]);
        j += 1;
        assert(e@ =~= name@.subrange(i as int, j as int));
    }
    Some(e)
}

/// The directory key of `path` at `depth`.
pub fn dir_key(path: &str, depth: usize) -> (r: String)
    ensures
        r@ == dir_key_of(path@, depth as nat),
{
    let p = chars_of(path);
    let (comps, _) = split_path(&p);
    let ghost cv = views(comps@);
    if comps.len() <= 1 || depth == 0 {
        let dot = vec!['.'];
        assert(dot@ =~= seq!['.']);
        return string_of(&dot);
    }
    let dirs = comps.len() - 1;
    let d = if depth < dirs { depth } else { dirs };
    let mut out: Vec<char> = Vec::new();
    let mut k: usize = 0;
    assert(join(cv.take(0)) =~= Seq::<char>::empty());
    while k < d
        invariant
            k <= d < comps.len(),
            cv == views(comps@),
            out@ == join(cv.take(k as int)),
        decreases d - k,
    {
        let ghost before = out@;
        if k > 0 {
            out.push('/');
        }
        let part = &comps[k];
        let mut j: usize = 0;
        while j < part.len()
            invariant
                j <= part.len(),
                out@ == (if k > 0 { before + seq!['/'] } else { before }) + part@.take(j as int),
            decreases part.len() - j,
        {
            out.push(part[j]);
            j += 1;
            assert(out@ =~= (if k > 0 { before + seq!['/'] } else { before })
                + part@.take(j as int));
        }
        assert(part@.take(part@.len() as int) =~= part@);
        assert(cv.take(k + 1).drop_last() =~= cv.take(k as int));
        assert(cv[k as int] == part@);
        if k == 0 {
            assert(out@ =~= join(cv.take(1)));
        }
        k += 1;
    }
    string_of(&out)
}

} // verus!
