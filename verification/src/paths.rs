//! File system paths as bytes, joined the way the operating system reads them.

use vstd::prelude::*;

use crate::text::chars_of;

verus! {

/// The bytes of plain ASCII text.
pub open spec fn ascii(s: Seq<char>) -> Seq<u8> {
    s.map_values(|c: char| c as u8)
}

/// The bytes of plain ASCII text.
pub fn ascii_bytes(s: &str) -> (r: Vec<u8>)
    ensures
        r@ == ascii(s@),
{
    let chars = chars_of(s);
    let mut out: Vec<u8> = Vec::new();
    let mut i: usize = 0;
    while i < chars.len()
        invariant
            chars@ == s@,
            i <= chars.len(),
            out@ == ascii(s@.take(i as int)),
        decreases chars.len() - i,
    {
        out.push(chars[i] as u8);
        i = i + 1;
        assert(out@ =~= ascii(s@.take(i as int)));
    }
    assert(s@.take(i as int) =~= s@);
    out
}

/// A copy of some bytes.
pub fn copy_bytes(bytes: &Vec<u8>) -> (r: Vec<u8>)
    ensures
        r@ == bytes@,
{
    let mut out: Vec<u8> = Vec::new();
    let mut i: usize = 0;
    while i < bytes.len()
        invariant
            i <= bytes.len(),
            out@ == bytes@.take(i as int),
        decreases bytes.len() - i,
    {
        out.push(bytes[i]);
        i = i + 1;
    }
    assert(out@ =~= bytes@);
    out
}

/// `name`, a relative path, below `base`.
pub open spec fn joined_path(base: Seq<u8>, name: Seq<u8>) -> Seq<u8> {
    if base.len() == 0 {
        name
    } else if base.last() == 0x2f {
        base + name
    } else {
        base.push(0x2f) + name
    }
}

/// Puts a relative name below a directory.
pub fn join_path(base: &Vec<u8>, name: &str) -> (r: Vec<u8>)
    ensures
        r@ == joined_path(base@, ascii(name@)),
{
    let mut out = copy_bytes(base);
    if out.len() > 0 && out[out.len() - 1] != 0x2f {
        out.push(0x2f);
    }
    let mut tail = ascii_bytes(name);
    out.append(&mut tail);
    assert(out@ =~= joined_path(base@, ascii(name@)));
    out
}

/// A variable of the environment that a path needs and that is not set.
#[derive(Clone, Copy, Debug, PartialEq, Eq, Structural)]
pub enum PathError {
    NoConfigHome,
    NoHome,
}

impl PathError {
    /// What to tell the user.
    pub fn message(self) -> (r: &'static str)
        ensures
            r@ == (match self {
                PathError::NoConfigHome => "neither XDG_CONFIG_HOME nor HOME is set"@,
                PathError::NoHome => "HOME is not set"@,
            }),
    {
        match self {
            PathError::NoConfigHome => "neither XDG_CONFIG_HOME nor HOME is set",
            PathError::NoHome => "HOME is not set",
        }
    }
}

/// The directory that a variable names, where it is set and not empty, or one below the
/// home directory.
pub open spec fn base_directory(
    variable: Option<Seq<u8>>,
    home: Option<Seq<u8>>,
    below_home: Seq<u8>,
) -> Option<Seq<u8>> {
    if variable is Some && variable->Some_0.len() > 0 {
        variable
    } else {
        match home {
            Some(h) => Some(joined_path(h, below_home)),
            None => None,
        }
    }
}

/// Picks the directory for one kind of file.
pub fn base_dir(variable: &Option<Vec<u8>>, home: &Option<Vec<u8>>, below_home: &str) -> (r: Option<
    Vec<u8>,
>)
    ensures
        r.deep_view() == base_directory(
            variable.deep_view(),
            home.deep_view(),
            ascii(below_home@),
        ),
{
    if let Some(v) = variable {
        if v.len() > 0 {
            let copy = copy_bytes(v);
            assert(copy.deep_view() =~= v.deep_view());
            return Some(copy);
        }
    }
    match home {
        Some(h) => {
            let r = join_path(h, below_home);
            assert(r.deep_view() =~= r@);
            assert(h.deep_view() =~= h@);
            Some(r)
        },
        None => None,
    }
}

/// A name below a directory: the directory, one slash, the name. A directory that ends with a
/// slash needs no other, and the empty one none at all.
pub proof fn law_one_slash_stands_between(base: Seq<u8>, name: Seq<u8>)
    ensures
        base.len() == 0 ==> joined_path(base, name) == name,
        base.len() > 0 ==> joined_path(base.push(0x2f), name) == base.push(0x2f) + name,
        base.len() > 0 && base[base.len() - 1] != 0x2f ==> joined_path(base, name) == joined_path(
            base.push(0x2f),
            name,
        ),
        joined_path(base, name).len() >= name.len(),
        joined_path(base, name).skip(joined_path(base, name).len() - name.len()) == name,
{
    let p = joined_path(base, name);
    assert(p.skip(p.len() - name.len()) =~= name);
}

/// A directory comes from its variable, whatever the home directory is, unless the variable is
/// not set or empty; then it stands below the home directory, and without one there is none.
pub proof fn law_a_variable_outranks_the_home_directory(
    variable: Option<Seq<u8>>,
    home: Option<Seq<u8>>,
    below_home: Seq<u8>,
)
    ensures
        variable matches Some(v) ==> v.len() > 0 ==> base_directory(variable, home, below_home)
            == Some(v),
        variable is None || variable->Some_0.len() == 0 ==> (match home {
            Some(h) => base_directory(variable, home, below_home) == Some(
                joined_path(h, below_home),
            ),
            None => base_directory(variable, home, below_home) is None,
        }),
{
}

/// ASCII text has one byte for each character, with the character's own number.
pub proof fn law_ascii_text_keeps_its_numbers(s: Seq<char>, i: int)
    requires
        0 <= i < s.len(),
        s[i] <= '\u{7f}',
    ensures
        ascii(s).len() == s.len(),
        ascii(s)[i] as int == s[i] as int,
{
    lemma_ascii(s[i]);
}

proof fn lemma_ascii(c: char)
    requires
        c <= '\u{7f}',
    ensures
        (c as u8) as int == c as int,
{
}

} // verus!
