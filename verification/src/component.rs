use vstd::prelude::*;

verus! {

/// Which family of path conventions is in force: POSIX (`/`-separated, no
/// prefixes) or Windows (`\` preferred and `/` accepted on input, drive-letter
/// and UNC prefixes, ASCII-case-insensitive segment comparison in `relative`).
#[derive(Clone, Copy, PartialEq, Eq, Structural, Debug)]
pub enum Platform {
    Posix,
    Windows,
}

/// One classified unit of a decomposed path.
#[derive(Debug)]
pub enum Component {
    /// A platform-specific root qualifier: a drive letter (`C:`) or a UNC
    /// server/share (`\\server\share`). Windows only; at most one, always
    /// first. Opaque payload, compared for equality only.
    Prefix(String),
    /// The root separator marker.
    RootDir,
    /// A literal `.` segment. Never retained by the collapser.
    CurDir,
    /// A literal `..` segment. Retained only when it cannot be collapsed
    /// against a preceding named segment.
    ParentDir,
    /// A named segment: opaque text with no embedded separators.
    Normal(String),
}

/// The mathematical value of a `Component`: the same variants over `Seq<char>`.
pub ghost enum SpecComp {
    Prefix(Seq<char>),
    RootDir,
    CurDir,
    ParentDir,
    Normal(Seq<char>),
}

impl View for Component {
    type V = SpecComp;

    open spec fn view(&self) -> SpecComp {
        match self {
            Component::Prefix(t) => SpecComp::Prefix(t@),
            Component::RootDir => SpecComp::RootDir,
            Component::CurDir => SpecComp::CurDir,
            Component::ParentDir => SpecComp::ParentDir,
            Component::Normal(t) => SpecComp::Normal(t@),
        }
    }
}

impl DeepView for Component {
    type V = SpecComp;

    open spec fn deep_view(&self) -> SpecComp {
        self.view()
    }
}

/// The platform-preferred separator, used when reassembling.
pub open spec fn sep_char(p: Platform) -> char {
    if p is Windows {
        '\\'
    } else {
        '/'
    }
}

/// Which characters act as segment separators on input.
pub open spec fn is_sep_char(p: Platform, c: char) -> bool {
    c == '/' || (p is Windows && c == '\\')
}

pub open spec fn is_ascii_letter(c: char) -> bool {
    (97 <= c as u32 && c as u32 <= 122) || (65 <= c as u32 && c as u32 <= 90)
}

/// ASCII case folding, as a mapping of each character to a numeric code:
/// `A`..`Z` fold onto `a`..`z`, all other characters onto themselves.
pub open spec fn fold_char(c: char) -> int {
    if 65 <= c as int && c as int <= 90 {
        c as int + 32
    } else {
        c as int
    }
}

/// ASCII-case-insensitive character equality.
pub open spec fn ci_char_eq(a: char, b: char) -> bool {
    fold_char(a) == fold_char(b)
}

/// ASCII-case-insensitive text equality.
pub open spec fn ci_seq_eq(a: Seq<char>, b: Seq<char>) -> bool {
    a.len() == b.len() && (forall|i: int| 0 <= i < a.len() ==> ci_char_eq(a[i], b[i]))
}

/// Executable separator test, matching `is_sep_char`.
pub fn is_sep(p: Platform, c: char) -> (r: bool)
    ensures
        r == is_sep_char(p, c),
{
    c == '/' || (matches!(p, Platform::Windows) && c == '\\')
}

/// Executable ASCII-letter test, matching `is_ascii_letter`.
pub fn is_letter(c: char) -> (r: bool)
    ensures
        r == is_ascii_letter(c),
{
    let u = c as u32;
    (97 <= u && u <= 122) || (65 <= u && u <= 90)
}

/// Executable ASCII case folding, matching `fold_char`.
pub fn fold(c: char) -> (r: u32)
    ensures
        r as int == fold_char(c),
{
    let u = c as u32;
    if 65 <= u && u <= 90 {
        u + 32
    } else {
        u
    }
}

/// A structurally equal copy of a component.
pub fn duplicate(c: &Component) -> (r: Component)
    ensures
        r@ == c@,
{
    match c {
        Component::Prefix(t) => Component::Prefix(t.clone()),
        Component::RootDir => Component::RootDir,
        Component::CurDir => Component::CurDir,
        Component::ParentDir => Component::ParentDir,
        Component::Normal(t) => Component::Normal(t.clone()),
    }
}

/// A structurally equal copy of a component list.
pub fn duplicate_all(cs: &Vec<Component>) -> (r: Vec<Component>)
    ensures
        r.deep_view() == cs.deep_view(),
{
    let mut out: Vec<Component> = Vec::new();
    let mut i: usize = 0;
    while i < cs.len()
        invariant
            i <= cs.len(),
            out.len() == i,
            forall|k: int| 0 <= k < i ==> out.deep_view()[k] == cs.deep_view()[k],
        decreases cs.len() - i,
    {
        out.push(duplicate(&cs[i]));
        i = i + 1;
    }
    proof {
        assert(out.deep_view() =~= cs.deep_view());
    }
    out
}

} // verus!
