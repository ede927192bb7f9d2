//! The title of a schema file.

use vstd::prelude::*;

use crate::text::{chars_of, same, slice_string, stands, stands_at};

verus! {

/// A directory with the home directory at its front written `~`; only whole path components count.
pub open spec fn home_collapsed(dir: Seq<char>, home: Option<Seq<char>>) -> Seq<char> {
    match home {
        Some(h) => if h.len() == 0 {
            dir
        } else if dir == h {
            "~"@
        } else if stands_at(dir, h.push('/'), 0) {
            "~"@ + dir.skip(h.len() as int)
        } else {
            dir
        },
        None => dir,
    }
}

/// The directory label: nothing where there is no directory.
pub open spec fn dir_label(dir: Option<Seq<char>>, home: Option<Seq<char>>) -> Option<Seq<char>> {
    match dir {
        Some(d) => if d.len() == 0 {
            None
        } else {
            Some(home_collapsed(d, home))
        },
        None => None,
    }
}

/// A directory that only shares the first letters of its name with home is not home: it keeps its
/// full path.
pub proof fn lookalikes_are_not_collapsed(home: Seq<char>, c: char, rest: Seq<char>)
    requires
        home.len() > 0,
        c != '/',
    ensures
        home_collapsed(home.push(c) + rest, Some(home)) == home.push(c) + rest,
{
    let dir = home.push(c) + rest;
    let prefix = home.push('/');
    assert(dir[home.len() as int] == c);
    if stands_at(dir, prefix, 0) {
        assert(dir.subrange(0, prefix.len() as int)[home.len() as int] == '/');
    }
    assert(dir.len() > home.len());
}

fn collapse_home(dir: &str, home: Option<&str>) -> (r: String)
    ensures
        r@ == home_collapsed(dir@, home.deep_view()),
{
    match home {
        Some(h) => {
            if h.unicode_len() == 0 {
                return dir.to_owned();
            }
            if same(dir, h) {
                return "~".to_owned();
            }
            let d = chars_of(dir);
            let mut prefix = chars_of(h);
            let n: usize = prefix.len();
            prefix.push('/');
            if stands(&d, &prefix, 0) {
                let tail = slice_string(&d, n, d.len());
                assert(d@.subrange(n as int, d@.len() as int) =~= d@.skip(n as int));
                let mut r = "~".to_owned();
                r.append(tail.as_str());
                r
            } else {
                dir.to_owned()
            }
        },
        None => dir.to_owned(),
    }
}

/// What the titlebar shows of a schema path: the file name, or the whole path where it has none,
/// and the directory holding it with the home directory written `~`. A pasted schema has no
/// directory, and neither has a bare relative name.
pub fn file_label(whole: &str, name: Option<&str>, dir: Option<&str>, home: Option<&str>) -> (r: (
    String,
    Option<String>,
))
    ensures
        r.0@ == (match name {
            Some(n) => n@,
            None => whole@,
        }),
        r.1.deep_view() == dir_label(dir.deep_view(), home.deep_view()),
{
    let shown = match name {
        Some(n) => n.to_owned(),
        None => whole.to_owned(),
    };
    let label: Option<String> = match dir {
        Some(d) => if d.unicode_len() == 0 {
            None
        } else {
            Some(collapse_home(d, home))
        },
        None => None,
    };
    (shown, label)
}

} // verus!
