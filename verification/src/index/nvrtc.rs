//! Finding the CUDA run-time compiler: which directories may hold it, which of
//! the files in them it is, and what a compilation comes to.

use vstd::prelude::*;
use vstd::string::*;

use crate::text;

verus! {

// ---------------------------------------------------------------------------
// File names
// ---------------------------------------------------------------------------

/// The name is that of the compiler library, not of its companion.
pub open spec fn names_compiler(name: Seq<char>) -> bool {
    &&& "libnvrtc"@.is_prefix_of(name)
    &&& text::occurs(name, ".so"@)
    &&& !"libnvrtc-builtins"@.is_prefix_of(name)
}

/// Whether a file is the compiler library (not its `-builtins` companion).
pub fn is_nvrtc_lib(name: &str) -> (r: bool)
    ensures
        r == names_compiler(name@),
{
    text::starts_with(name, "libnvrtc") && text::contains(name, ".so") && !text::starts_with(
        name,
        "libnvrtc-builtins",
    )
}

/// Whether a file is the companion of the compiler library.
pub fn is_builtins_lib(name: &str) -> (r: bool)
    ensures
        r == ("libnvrtc-builtins"@.is_prefix_of(name@) && text::occurs(name@, ".so"@)),
{
    text::starts_with(name, "libnvrtc-builtins") && text::contains(name, ".so")
}

/// What stands behind the first occurrence of a pattern.
pub open spec fn behind(s: Seq<char>, pat: Seq<char>) -> Option<Seq<char>> {
    if text::occurs(s, pat) {
        let i = choose|i: int| text::first_at(s, pat, i);
        Some(s.skip(i + pat.len()))
    } else {
        None
    }
}

/// The numbers among pieces of text, in their order.
pub open spec fn numbers_among(parts: Seq<Seq<char>>) -> Seq<nat>
    decreases parts.len(),
{
    if parts.len() == 0 {
        Seq::empty()
    } else {
        let before = numbers_among(parts.drop_last());
        match text::number(parts.last(), u32::MAX as nat) {
            Some(n) => before.push(n),
            None => before,
        }
    }
}

/// The digits at the start of a text.
pub open spec fn leading_digits(s: Seq<char>) -> Seq<char>
    decreases s.len(),
{
    if s.len() > 0 && text::is_digit(s[0]) {
        seq![s[0]] + leading_digits(s.skip(1))
    } else {
        Seq::empty()
    }
}

/// The number at a place of a list, zero behind its end.
pub open spec fn nth_or_zero(numbers: Seq<nat>, i: int) -> nat {
    if i < numbers.len() {
        numbers[i]
    } else {
        0
    }
}

/// The rank of a file name by its version: `libnvrtc.so.12.2`,
/// `libnvrtc64_120_0.so`; zero without a version.
pub open spec fn rank_of(name: Seq<char>) -> int {
    match behind(name, ".so."@) {
        Some(version) => {
            let numbers = numbers_among(text::pieces(version, '.'));
            (nth_or_zero(numbers, 0) * 10000 + nth_or_zero(numbers, 1) * 100) as int
        },
        None => match behind(name, "nvrtc64_"@) {
            Some(version) => {
                let digits = leading_digits(version);
                if digits.len() >= 2 {
                    (text::digits_value(digits.take(2)) * 10000) as int
                } else {
                    (text::digits_value(digits) * 10000) as int
                }
            },
            None => 0,
        },
    }
}

/// The name of a library with this version: `libnvrtc.so.12` or `libnvrtc.so.12.2`. A
/// minor version that is missing counts as zero.
pub open spec fn names_version(name: Seq<char>, major: nat, minor: nat) -> bool {
    ||| minor == 0 && exists|a: Seq<char>| #[trigger]
        stands_for(a, major) && name == "libnvrtc.so."@ + a
    ||| exists|a: Seq<char>, b: Seq<char>| #[trigger]
        stands_for(a, major) && #[trigger] stands_for(b, minor) && name == "libnvrtc.so."@ + (
        a.push('.') + b)
}

/// Digits stand for a number.
pub open spec fn stands_for(digits: Seq<char>, n: nat) -> bool {
    digits.len() > 0 && text::all_digits(digits) && text::digits_value(digits) == n
}

proof fn lemma_behind(version: Seq<char>)
    ensures
        behind("libnvrtc.so."@ + version, ".so."@) == Some(version),
{
    reveal_strlit("libnvrtc.so.");
    reveal_strlit(".so.");
    let name = "libnvrtc.so."@ + version;
    let pat = ".so."@;
    assert(name.subrange(8, 12) =~= pat);
    assert(text::occurs_at(name, pat, 8));
    assert forall|j: int| 0 <= j < 8 implies !text::occurs_at(name, pat, j) by {
        if text::occurs_at(name, pat, j) {
            assert(name.subrange(j, j + 4)[0] == pat[0]);
            assert(name[j] == "libnvrtc.so."@[j]);
        }
    }
    assert(text::first_at(name, pat, 8));
    let i = choose|i: int| text::first_at(name, pat, i);
    assert(text::first_at(name, pat, i));
    assert(i == 8);
    assert(name.skip(12) =~= version);
}

proof fn lemma_version(name: Seq<char>, major: nat, minor: nat)
    requires
        names_version(name, major, minor),
        major <= u32::MAX,
        minor <= u32::MAX,
    ensures
        rank_of(name) == major * 10000 + minor * 100,
{
    let none = Seq::<Seq<char>>::empty();
    if minor == 0 && exists|a: Seq<char>| #[trigger]
        stands_for(a, major) && name == "libnvrtc.so."@ + a {
        let a = choose|a: Seq<char>| #[trigger]
            stands_for(a, major) && name == "libnvrtc.so."@ + a;
        lemma_digits(a);
        lemma_behind(a);
        text::lemma_piece_behind(Seq::empty(), a, '.');
        lemma_number_read(none, a, major);
        assert(none.push(a) =~= seq![a]);
    } else {
        let (a, b) = choose|a: Seq<char>, b: Seq<char>| #[trigger]
            stands_for(a, major) && #[trigger] stands_for(b, minor) && name == "libnvrtc.so."@ + (
            a.push('.') + b);
        lemma_digits(a);
        lemma_digits(b);
        lemma_behind(a.push('.') + b);
        text::lemma_piece_behind(Seq::empty(), a, '.');
        text::lemma_piece_behind(a, b, '.');
        lemma_number_read(none, a, major);
        assert(none.push(a) =~= seq![a]);
        lemma_number_read(seq![a], b, minor);
    }
}

proof fn lemma_digits(digits: Seq<char>)
    requires
        text::all_digits(digits),
    ensures
        !digits.contains('.'),
{
    if digits.contains('.') {
        let i = choose|i: int| 0 <= i < digits.len() && digits[i] == '.';
        assert(text::is_digit(digits[i]));
    }
}

proof fn lemma_number_read(parts: Seq<Seq<char>>, digits: Seq<char>, n: nat)
    requires
        stands_for(digits, n),
        n <= u32::MAX,
    ensures
        numbers_among(parts.push(digits)) == numbers_among(parts).push(n),
{
    assert(text::is_digit(digits[0]));
    assert(parts.push(digits).drop_last() =~= parts);
}

/// Ranks order the names of libraries by their major and then by their minor version,
/// as long as that has at most two digits. A name without a version ranks below all
/// that have one from version 1 on.
pub proof fn law_ranks_order_versions(
    a: Seq<char>,
    a_major: nat,
    a_minor: nat,
    b: Seq<char>,
    b_major: nat,
    b_minor: nat,
)
    requires
        names_version(a, a_major, a_minor),
        names_version(b, b_major, b_minor),
        a_major <= u32::MAX,
        b_major <= u32::MAX,
        a_minor < 100,
        b_minor < 100,
    ensures
        rank_of(a) > rank_of(b) <==> a_major > b_major || a_major == b_major && a_minor > b_minor,
        rank_of("libnvrtc.so"@) == 0,
        a_major >= 1 ==> rank_of(a) > rank_of("libnvrtc.so"@),
{
    lemma_version(a, a_major, a_minor);
    lemma_version(b, b_major, b_minor);
    reveal_strlit("libnvrtc.so");
    reveal_strlit(".so.");
    reveal_strlit("nvrtc64_");
    let name = "libnvrtc.so"@;
    assert forall|i: int| !text::occurs_at(name, ".so."@, i) by {
        if text::occurs_at(name, ".so."@, i) {
            assert(name.subrange(i, i + 4)[0] == ".so."@[0]);
            assert(name.subrange(i, i + 4)[3] == ".so."@[3]);
        }
    }
    assert forall|i: int| !text::occurs_at(name, "nvrtc64_"@, i) by {
        if text::occurs_at(name, "nvrtc64_"@, i) {
            assert(name.subrange(i, i + 8)[5] == "nvrtc64_"@[5]);
        }
    }
}

fn skip_behind(s: &str, pat: &str) -> (r: Option<String>)
    ensures
        match r {
            Some(t) => behind(s@, pat@) == Some(t@),
            None => behind(s@, pat@) is None,
        },
{
    match text::find(s, pat) {
        Some(i) => {
            proof {
                let j = choose|j: int| text::first_at(s@, pat@, j);
                assert(text::first_at(s@, pat@, i as int));
                assert(text::occurs_at(s@, pat@, i as int));
                if j < i {
                    assert(text::occurs_at(s@, pat@, j));
                }
                assert(j == i);
            }
            let chars: Vec<char> = text::to_chars(s);
            let n: usize = text::to_chars(pat).len();
            assert(i + n <= chars.len());
            let at: usize = i + n;
            assert(s@.subrange(at as int, s@.len() as int) =~= s@.skip(at as int));
            Some(text::slice_text(&chars, at, chars.len()))
        },
        None => None,
    }
}

proof fn lemma_leading_digits(s: Seq<char>, n: int)
    requires
        0 <= n <= s.len(),
        forall|i: int| 0 <= i < n ==> text::is_digit(#[trigger] s[i]),
        n < s.len() ==> !text::is_digit(s[n]),
    ensures
        leading_digits(s) == s.take(n),
    decreases s.len(),
{
    if n == 0 {
        assert(s.take(0) =~= Seq::<char>::empty());
    } else {
        let rest = s.skip(1);
        assert forall|i: int| 0 <= i < n - 1 implies text::is_digit(#[trigger] rest[i]) by {
            assert(rest[i] == s[i + 1]);
        }
        lemma_leading_digits(rest, n - 1);
        assert(text::is_digit(s[0]));
        assert(seq![s[0]] + rest.take(n - 1) =~= s.take(n));
    }
}

fn digit_value(c: char) -> (r: u64)
    requires
        text::is_digit(c),
    ensures
        r < 10,
        r == text::digits_value(seq![c]),
{
    proof {
        assert(seq![c].drop_last() =~= Seq::<char>::empty());
        assert(text::digits_value(Seq::<char>::empty()) == 0);
    }
    (c as u32 - 0x30) as u64
}

/// Ranks a library by the version in its file name, so that the highest wins.
pub fn version_rank(name: &str) -> (r: u64)
    ensures
        r == rank_of(name@),
{
    match skip_behind(name, ".so.") {
        Some(version) => {
            let parts: Vec<String> = text::split(version.as_str(), '.');
            let ghost views = text::pieces(version@, '.');
            let mut major: u64 = 0;
            let mut minor: u64 = 0;
            let mut seen: u64 = 0;
            let mut i: usize = 0;
            assert(views.take(0) =~= Seq::<Seq<char>>::empty());
            while i < parts.len()
                invariant
                    i <= parts.len(),
                    text::texts(parts@) == views,
                    seen <= 2,
                    major <= u32::MAX,
                    minor <= u32::MAX,
                    seen == 2 ==> numbers_among(views.take(i as int)).len() >= 2,
                    seen < 2 ==> numbers_among(views.take(i as int)).len() == seen,
                    major == nth_or_zero(numbers_among(views.take(i as int)), 0),
                    minor == nth_or_zero(numbers_among(views.take(i as int)), 1),
                decreases parts.len() - i,
            {
                proof {
                    assert(views.take(i + 1).drop_last() =~= views.take(i as int));
                    assert(views[i as int] == parts@[i as int]@);
                }
                match text::parse_u32(parts[i].as_str()) {
                    Some(n) => {
                        if seen == 0 {
                            major = n as u64;
                            seen = 1;
                        } else if seen == 1 {
                            minor = n as u64;
                            seen = 2;
                        }
                    },
                    None => {},
                }
                i = i + 1;
            }
            assert(views.take(i as int) =~= views);
            major * 10000 + minor * 100
        },
        None => match skip_behind(name, "nvrtc64_") {
            Some(version) => {
                let chars: Vec<char> = text::to_chars(version.as_str());
                let mut n: usize = 0;
                while n < chars.len() && chars[n] >= '0' && chars[n] <= '9'
                    invariant
                        n <= chars.len(),
                        chars@ == version@,
                        forall|i: int| 0 <= i < n ==> text::is_digit(#[trigger] chars@[i]),
                    decreases chars.len() - n,
                {
                    n = n + 1;
                }
                proof {
                    lemma_leading_digits(version@, n as int);
                }
                let ghost digits = leading_digits(version@);
                if n >= 2 {
                    let a: u64 = digit_value(chars[0]);
                    let b: u64 = digit_value(chars[1]);
                    proof {
                        let two = digits.take(2);
                        assert(two.drop_last() =~= seq![chars@[0]]);
                        assert(seq![chars@[1]].drop_last() =~= Seq::<char>::empty());
                        assert(two.last() == chars@[1]);
                        reveal_with_fuel(text::digits_value, 3);
                        assert(text::digits_value(two) == 10 * a + b);
                    }
                    (10 * a + b) * 10000
                } else if n == 1 {
                    proof {
                        assert(digits =~= seq![chars@[0]]);
                    }
                    digit_value(chars[0]) * 10000
                } else {
                    assert(digits =~= Seq::<char>::empty());
                    0
                }
            },
            None => 0,
        },
    }
}

// ---------------------------------------------------------------------------
// The best library
// ---------------------------------------------------------------------------

/// The first of the compiler libraries among files whose rank no other exceeds.
pub open spec fn is_best(names: Seq<Seq<char>>, i: int) -> bool {
    &&& 0 <= i < names.len()
    &&& names_compiler(names[i])
    &&& forall|j: int|
        0 <= j < names.len() && names_compiler(#[trigger] names[j]) ==> rank_of(names[j])
            <= rank_of(names[i])
    &&& forall|j: int|
        0 <= j < i && names_compiler(#[trigger] names[j]) ==> rank_of(names[j]) < rank_of(names[i])
}

/// No file is a compiler library.
pub open spec fn has_none(names: Seq<Seq<char>>) -> bool {
    forall|j: int| 0 <= j < names.len() ==> !names_compiler(#[trigger] names[j])
}

/// The best compiler library among the files of a directory.
pub fn best_in_dir(names: &Vec<String>) -> (r: Option<usize>)
    ensures
        match r {
            Some(i) => is_best(text::texts(names@), i as int),
            None => has_none(text::texts(names@)),
        },
{
    let ghost views = text::texts(names@);
    let mut best: Option<(usize, u64)> = None;
    let mut i: usize = 0;
    while i < names.len()
        invariant
            i <= names.len(),
            views == text::texts(names@),
            match best {
                Some((k, rank)) => k < i && is_best(views.take(i as int), k as int) && rank
                    == rank_of(views[k as int]),
                None => has_none(views.take(i as int)),
            },
        decreases names.len() - i,
    {
        let ghost now = views.take(i as int);
        let ghost next = views.take(i + 1);
        proof {
            assert(views[i as int] == names@[i as int]@);
            assert forall|j: int| 0 <= j < i implies #[trigger] next[j] == now[j] by {}
            assert(next[i as int] == names@[i as int]@);
        }
        if is_nvrtc_lib(names[i].as_str()) {
            let rank: u64 = version_rank(names[i].as_str());
            match best {
                Some((k, top)) => {
                    if rank > top {
                        best = Some((i, rank));
                        assert forall|j: int| 0 <= j < i
                            && names_compiler(#[trigger] next[j]) implies rank_of(
                            next[j],
                        ) < rank by {
                            assert(now[j] == next[j]);
                        }
                    } else {
                        assert(next[k as int] == now[k as int]);
                        assert forall|j: int| 0 <= j < next.len()
                            && names_compiler(#[trigger] next[j]) implies rank_of(
                            next[j],
                        ) <= top by {
                            if j < i {
                                assert(now[j] == next[j]);
                            }
                        }
                        assert forall|j: int| 0 <= j < k
                            && names_compiler(#[trigger] next[j]) implies rank_of(
                            next[j],
                        ) < top by {
                            assert(now[j] == next[j]);
                        }
                    }
                },
                None => {
                    best = Some((i, rank));
                    assert forall|j: int| 0 <= j < i implies !names_compiler(#[trigger] next[j]) by {
                        assert(now[j] == next[j]);
                    }
                },
            }
        } else {
            proof {
                match best {
                    Some((k, top)) => {
                        assert(next[k as int] == now[k as int]);
                        assert forall|j: int| 0 <= j < next.len()
                            && names_compiler(#[trigger] next[j]) implies rank_of(
                            next[j],
                        ) <= top by {
                            assert(now[j] == next[j]);
                        }
                        assert forall|j: int| 0 <= j < k
                            && names_compiler(#[trigger] next[j]) implies rank_of(
                            next[j],
                        ) < top by {
                            assert(now[j] == next[j]);
                        }
                    },
                    None => {
                        assert forall|j: int| 0 <= j < next.len() implies !names_compiler(
                            #[trigger] next[j],
                        ) by {
                            if j < i {
                                assert(now[j] == next[j]);
                            }
                        }
                    },
                }
            }
        }
        i = i + 1;
    }
    assert(views.take(i as int) =~= views);
    match best {
        Some((k, _)) => Some(k),
        None => None,
    }
}

/// The file names of a directory.
pub open spec fn listing(dirs: Seq<Vec<String>>, d: int) -> Seq<Seq<char>> {
    text::texts(dirs[d]@)
}

/// The best library over the first `n` directories: no directory has a better
/// one, and those before it have only lesser ones.
pub open spec fn is_best_over(dirs: Seq<Vec<String>>, n: int, d: int, i: int) -> bool {
    &&& 0 <= d < n
    &&& is_best(listing(dirs, d), i)
    &&& forall|e: int, j: int|
        0 <= e < n && is_best(#[trigger] listing(dirs, e), j) ==> rank_of(
            #[trigger] listing(dirs, e)[j],
        ) <= rank_of(listing(dirs, d)[i])
    &&& forall|e: int, j: int|
        0 <= e < d && is_best(#[trigger] listing(dirs, e), j) ==> rank_of(
            #[trigger] listing(dirs, e)[j],
        ) < rank_of(listing(dirs, d)[i])
}

proof fn lemma_one_best(names: Seq<Seq<char>>, i: int, j: int)
    requires
        is_best(names, i),
        is_best(names, j),
    ensures
        i == j,
{
    if i < j {
        assert(rank_of(names[i]) < rank_of(names[j]));
        assert(rank_of(names[j]) <= rank_of(names[i]));
    }
    if j < i {
        assert(rank_of(names[j]) < rank_of(names[i]));
        assert(rank_of(names[i]) <= rank_of(names[j]));
    }
}

/// Finds the best compiler library, given the file names of the candidate
/// directories in their order: its directory and its place there.
pub fn resolve_nvrtc(dirs: &Vec<Vec<String>>) -> (r: Option<(usize, usize)>)
    ensures
        match r {
            Some((d, i)) => is_best_over(dirs@, dirs.len() as int, d as int, i as int),
            None => forall|d: int| 0 <= d < dirs.len() ==> has_none(#[trigger] listing(dirs@, d)),
        },
{
    let mut best: Option<(usize, usize, u64)> = None;
    let mut d: usize = 0;
    while d < dirs.len()
        invariant
            d <= dirs.len(),
            match best {
                Some((bd, bi, rank)) => {
                    &&& is_best_over(dirs@, d as int, bd as int, bi as int)
                    &&& rank == rank_of(listing(dirs@, bd as int)[bi as int])
                },
                None => forall|e: int| 0 <= e < d ==> has_none(#[trigger] listing(dirs@, e)),
            },
        decreases dirs.len() - d,
    {
        let ghost here = listing(dirs@, d as int);
        match best_in_dir(&dirs[d]) {
            Some(i) => {
                assert(here[i as int] == dirs@[d as int]@[i as int]@);
                let rank: u64 = version_rank(dirs[d][i].as_str());
                proof {
                    assert forall|j: int| is_best(here, j) implies j == i by {
                        lemma_one_best(here, i as int, j);
                    }
                }
                match best {
                    Some((_, _, top)) => {
                        if rank > top {
                            best = Some((d, i, rank));
                        }
                    },
                    None => {
                        best = Some((d, i, rank));
                        proof {
                            assert forall|e: int, j: int|
                                0 <= e < d
                                    && is_best(#[trigger] listing(dirs@, e), j) implies rank_of(
                                #[trigger] listing(dirs@, e)[j],
                            ) < rank by {
                                assert(has_none(listing(dirs@, e)));
                            }
                        }
                    },
                }
            },
            None => {
                assert(has_none(here));
            },
        }
        d = d + 1;
    }
    match best {
        Some((bd, bi, _)) => Some((bd, bi)),
        None => None,
    }
}

// ---------------------------------------------------------------------------
// Directories
// ---------------------------------------------------------------------------

/// The `site-packages` directory that the interpreter reported, once it did.
#[derive(Debug)]
pub struct SitePackages {
    pub path: Option<String>,
}

impl SitePackages {
    /// Nothing reported yet.
    pub fn new() -> (r: Self)
        ensures
            r.path is None,
    {
        SitePackages { path: None }
    }
}

/// Records the interpreter's `site-packages`. The first report counts.
pub fn set_python_site_packages(known: &mut SitePackages, path: String)
    ensures
        final(known).path == match old(known).path {
            Some(p) => Some(p),
            None => Some(path),
        },
{
    if known.path.is_none() {
        known.path = Some(path);
    }
}

/// Paths with the name of an entry appended to each.
pub open spec fn with_entry(dirs: Seq<Seq<char>>, name: Seq<char>) -> Seq<Seq<char>> {
    dirs.map_values(|d: Seq<char>| d + "/"@ + name)
}

fn join_entry(dir: &str, name: &str) -> (r: String)
    ensures
        r@ == dir@ + "/"@ + name@,
{
    let mut p: String = dir.to_owned();
    p.append("/");
    p.append(name);
    p
}

/// The `lib` directories of the packages under a `site-packages` root, given
/// the directories in its `nvidia` directory.
pub fn nvidia_lib_dirs(packages: &Vec<String>) -> (r: Vec<String>)
    ensures
        text::texts(r@) == with_entry(text::texts(packages@), "lib"@),
{
    let ghost views = text::texts(packages@);
    let mut dirs: Vec<String> = Vec::new();
    let mut i: usize = 0;
    while i < packages.len()
        invariant
            i <= packages.len(),
            views == text::texts(packages@),
            text::texts(dirs@) == with_entry(views.take(i as int), "lib"@),
        decreases packages.len() - i,
    {
        let ghost before = dirs@;
        let dir: String = join_entry(packages[i].as_str(), "lib");
        dirs.push(dir);
        proof {
            assert(text::texts(dirs@) =~= text::texts(before).push(dir@));
            assert(views[i as int] == packages@[i as int]@);
            assert(text::texts(dirs@) =~= with_entry(views.take(i + 1), "lib"@));
        }
        i = i + 1;
    }
    assert(views.take(i as int) =~= views);
    dirs
}

/// The texts that start with a prefix, in their order.
pub open spec fn starting_with(names: Seq<Seq<char>>, prefix: Seq<char>) -> Seq<Seq<char>>
    decreases names.len(),
{
    if names.len() == 0 {
        Seq::empty()
    } else {
        let before = starting_with(names.drop_last(), prefix);
        if prefix.is_prefix_of(names.last()) {
            before.push(names.last())
        } else {
            before
        }
    }
}

/// The names of directories that start with a prefix.
pub fn names_with_prefix(names: &Vec<String>, prefix: &str) -> (r: Vec<String>)
    ensures
        text::texts(r@) == starting_with(text::texts(names@), prefix@),
{
    let ghost views = text::texts(names@);
    let mut kept: Vec<String> = Vec::new();
    let mut i: usize = 0;
    assert(views.take(0) =~= Seq::<Seq<char>>::empty());
    assert(text::texts(kept@) =~= Seq::<Seq<char>>::empty());
    while i < names.len()
        invariant
            i <= names.len(),
            views == text::texts(names@),
            text::texts(kept@) == starting_with(views.take(i as int), prefix@),
        decreases names.len() - i,
    {
        proof {
            assert(views.take(i + 1).drop_last() =~= views.take(i as int));
            assert(views[i as int] == names@[i as int]@);
        }
        if text::starts_with(names[i].as_str(), prefix) {
            let ghost before = kept@;
            let name: String = names[i].clone();
            kept.push(name);
            assert(text::texts(kept@) =~= text::texts(before).push(name@));
        }
        i = i + 1;
    }
    assert(views.take(i as int) =~= views);
    kept
}

/// The path up to character `i` is a directory named `site-packages`.
pub open spec fn packages_end_at(path: Seq<char>, i: int) -> bool {
    &&& 0 <= i < path.len()
    &&& path[i] == '/'
    &&& text::pieces(path.take(i), '/').last() == "site-packages"@
}

/// The nearest `site-packages` directory above a file.
pub fn site_packages_above(path: &str) -> (r: Option<String>)
    ensures
        match r {
            Some(p) => exists|i: int| #[trigger]
                packages_end_at(path@, i) && p@ == path@.take(i) && forall|j: int|
                    i < j ==> !packages_end_at(path@, j),
            None => forall|i: int| !packages_end_at(path@, i),
        },
{
    let chars: Vec<char> = text::to_chars(path);
    let mut i: usize = chars.len();
    while i > 0
        invariant
            i <= chars.len(),
            chars@ == path@,
            forall|j: int| i <= j ==> !#[trigger] packages_end_at(path@, j),
        decreases i,
    {
        i = i - 1;
        if chars[i] == '/' {
            let dir: String = text::slice_text(&chars, 0, i);
            assert(path@.subrange(0, i as int) =~= path@.take(i as int));
            let name: String = text::last_piece(dir.as_str(), '/');
            if text::same(name.as_str(), "site-packages") {
                assert(packages_end_at(path@, i as int));
                return Some(dir);
            }
        }
    }
    None
}

/// What the environment says of places where the compiler may be. The lists of
/// `lib` directories are those of the packages in each place, in order.
#[derive(Debug)]
pub struct SearchPlaces {
    /// The directory that is asked for explicitly.
    pub explicit: Option<String>,
    /// Under the `site-packages` that the interpreter reported.
    pub reported: Vec<String>,
    /// Under the `site-packages` that holds this library.
    pub own: Vec<String>,
    /// Under the entries of the Python path.
    pub python_path: Vec<String>,
    /// The roots of CUDA installations.
    pub cuda_roots: Vec<String>,
    /// Under the conventional prefixes.
    pub prefixes: Vec<String>,
    /// The entries of the library path.
    pub library_path: Vec<String>,
}

/// The directories of CUDA installations.
pub open spec fn cuda_dirs(roots: Seq<Seq<char>>) -> Seq<Seq<char>>
    decreases roots.len(),
{
    if roots.len() == 0 {
        Seq::empty()
    } else {
        cuda_dirs(roots.drop_last()) + seq![
            roots.last() + "/"@ + "lib64"@,
            roots.last() + "/"@ + "lib"@,
            roots.last() + "/"@ + "targets/x86_64-linux/lib"@,
        ]
    }
}

/// The candidate directories, in the order in which they are searched.
pub open spec fn candidates(p: SearchPlaces) -> Seq<Seq<char>> {
    present(p.explicit) + text::texts(p.reported@) + text::texts(p.own@)
        + text::texts(p.python_path@) + cuda_dirs(
        text::texts(p.cuda_roots@),
    ) + seq!["/usr/local/cuda/lib64"@, "/usr/local/cuda/lib"@, "/opt/cuda/lib64"@] + text::texts(
        p.prefixes@,
    ) + text::texts(p.library_path@) + seq![
        "/usr/lib/x86_64-linux-gnu"@,
        "/usr/lib64"@,
        "/usr/lib"@,
    ]
}

fn push_dir(dirs: &mut Vec<String>, dir: String)
    ensures
        text::texts(final(dirs)@) == text::texts(old(dirs)@).push(dir@),
{
    let ghost before = dirs@;
    dirs.push(dir);
    assert(text::texts(dirs@) =~= text::texts(before).push(dir@));
}

fn push_dirs(dirs: &mut Vec<String>, more: Vec<String>)
    ensures
        text::texts(final(dirs)@) == text::texts(old(dirs)@) + text::texts(more@),
{
    let ghost before = dirs@;
    let ghost added = more@;
    let mut more = more;
    dirs.append(&mut more);
    assert(text::texts(dirs@) =~= text::texts(before) + text::texts(added));
}

fn add_cuda_dirs(dirs: &mut Vec<String>, roots: &Vec<String>)
    ensures
        text::texts(final(dirs)@) == text::texts(old(dirs)@) + cuda_dirs(text::texts(roots@)),
{
    let ghost start = text::texts(dirs@);
    let ghost views = text::texts(roots@);
    let mut i: usize = 0;
    assert(views.take(0) =~= Seq::<Seq<char>>::empty());
    assert(start + cuda_dirs(views.take(0)) =~= start);
    while i < roots.len()
        invariant
            i <= roots.len(),
            views == text::texts(roots@),
            text::texts(dirs@) == start + cuda_dirs(views.take(i as int)),
        decreases roots.len() - i,
    {
        proof {
            assert(views.take(i + 1).drop_last() =~= views.take(i as int));
            assert(views[i as int] == roots@[i as int]@);
        }
        push_dir(dirs, join_entry(roots[i].as_str(), "lib64"));
        push_dir(dirs, join_entry(roots[i].as_str(), "lib"));
        push_dir(dirs, join_entry(roots[i].as_str(), "targets/x86_64-linux/lib"));
        assert(text::texts(dirs@) =~= start + cuda_dirs(views.take(i + 1)));
        i = i + 1;
    }
    assert(views.take(i as int) =~= views);
}

/// The directories that may hold the compiler, in order of priority.
pub fn candidate_dirs(places: SearchPlaces) -> (r: Vec<String>)
    ensures
        text::texts(r@) == candidates(places),
{
    let ghost p = places;
    let mut dirs: Vec<String> = Vec::new();
    assert(text::texts(dirs@) =~= Seq::<Seq<char>>::empty());
    match places.explicit {
        Some(d) => {
            push_dir(&mut dirs, d);
        },
        None => {},
    }
    assert(text::texts(dirs@) =~= present(p.explicit));
    push_dirs(&mut dirs, places.reported);
    push_dirs(&mut dirs, places.own);
    push_dirs(&mut dirs, places.python_path);
    add_cuda_dirs(&mut dirs, &places.cuda_roots);
    push_dir(&mut dirs, "/usr/local/cuda/lib64".to_owned());
    push_dir(&mut dirs, "/usr/local/cuda/lib".to_owned());
    push_dir(&mut dirs, "/opt/cuda/lib64".to_owned());
    push_dirs(&mut dirs, places.prefixes);
    push_dirs(&mut dirs, places.library_path);
    push_dir(&mut dirs, "/usr/lib/x86_64-linux-gnu".to_owned());
    push_dir(&mut dirs, "/usr/lib64".to_owned());
    push_dir(&mut dirs, "/usr/lib".to_owned());
    assert(text::texts(dirs@) =~= candidates(p));
    dirs
}

/// A directory, where there is one.
pub open spec fn present(dir: Option<String>) -> Seq<Seq<char>> {
    match dir {
        Some(p) => seq![p@],
        None => Seq::empty(),
    }
}

/// The prefixes under which Python packages are installed, given those of the
/// environment and the home directory.
pub fn python_prefixes(
    virtual_env: Option<String>,
    conda_prefix: Option<String>,
    home: Option<String>,
) -> (r: Vec<String>)
    ensures
        text::texts(r@) == present(virtual_env) + present(conda_prefix) + with_entry(
            present(home),
            ".local"@,
        ) + seq!["/usr"@, "/usr/local"@],
{
    let ghost a = present(virtual_env);
    let ghost b = present(conda_prefix);
    let ghost c = with_entry(present(home), ".local"@);
    let mut out: Vec<String> = Vec::new();
    assert(text::texts(out@) =~= Seq::<Seq<char>>::empty());
    match virtual_env {
        Some(p) => {
            push_dir(&mut out, p);
        },
        None => {},
    }
    assert(text::texts(out@) =~= a);
    match conda_prefix {
        Some(p) => {
            push_dir(&mut out, p);
        },
        None => {},
    }
    assert(text::texts(out@) =~= a + b);
    match home {
        Some(p) => {
            push_dir(&mut out, join_entry(p.as_str(), ".local"));
        },
        None => {},
    }
    assert(text::texts(out@) =~= a + b + c);
    push_dir(&mut out, "/usr".to_owned());
    push_dir(&mut out, "/usr/local".to_owned());
    assert(text::texts(out@) =~= a + b + c + seq!["/usr"@, "/usr/local"@]);
    out
}

// ---------------------------------------------------------------------------
// Compiling
// ---------------------------------------------------------------------------

/// What the calls of a compilation returned: their result codes (zero for
/// success), the log of the compiler and the code that it produced. What comes
/// after a call that failed does not count.
#[derive(Debug)]
pub struct CompilerRun {
    pub create: i32,
    pub compile: i32,
    pub log: String,
    pub size: i32,
    pub fetch: i32,
    pub code: String,
}

/// What is reported where no compiler library was found.
pub open spec fn missing_message() -> Seq<char> {
    "libnvrtc not found. Install a CUDA toolkit or the `nvidia-cuda-nvrtc-cuXX` wheel, or set HDB_NVRTC_PATH to the library."@
}

/// What is reported of a call that failed.
pub open spec fn failure_message(call: Seq<char>, code: int) -> Seq<char> {
    call + " failed (code "@ + text::signed_decimal(code) + ")"@
}

/// What a compilation comes to: the first call that failed decides.
pub open spec fn outcome(run: Option<CompilerRun>) -> Result<Seq<char>, Seq<char>> {
    match run {
        None => Err(missing_message()),
        Some(r) => if r.create != 0 {
            Err(failure_message("nvrtcCreateProgram"@, r.create as int))
        } else if r.compile != 0 {
            Err(failure_message("nvrtcCompileProgram"@, r.compile as int) + ":\n"@ + r.log@)
        } else if r.size != 0 {
            Err(failure_message("nvrtcGetPTXSize"@, r.size as int))
        } else if r.fetch != 0 {
            Err(failure_message("nvrtcGetPTX"@, r.fetch as int))
        } else {
            Ok(r.code@)
        },
    }
}

fn failure(call: &str, code: i32) -> (r: String)
    ensures
        r@ == failure_message(call@, code as int),
{
    let mut m: String = call.to_owned();
    m.append(" failed (code ");
    m.append(text::i64_text(code as i64).as_str());
    m.append(")");
    m
}

/// The code that a compilation produced, or what is reported of it. There is no
/// run where no compiler library was found.
pub fn compile_ptx(run: Option<CompilerRun>) -> (r: Result<String, String>)
    ensures
        match (r, outcome(run)) {
            (Ok(a), Ok(b)) => a@ == b,
            (Err(a), Err(b)) => a@ == b,
            _ => false,
        },
{
    match run {
        None => Err(
            "libnvrtc not found. Install a CUDA toolkit or the `nvidia-cuda-nvrtc-cuXX` wheel, or set HDB_NVRTC_PATH to the library.".to_owned(),
        ),
        Some(run) => {
            if run.create != 0 {
                Err(failure("nvrtcCreateProgram", run.create))
            } else if run.compile != 0 {
                let mut m: String = failure("nvrtcCompileProgram", run.compile);
                m.append(":\n");
                m.append(run.log.as_str());
                Err(m)
            } else if run.size != 0 {
                Err(failure("nvrtcGetPTXSize", run.size))
            } else if run.fetch != 0 {
                Err(failure("nvrtcGetPTX", run.fetch))
            } else {
                Ok(run.code)
            }
        },
    }
}

/// The compiler is known by its name: any version of its library is, and no version of the
/// library of its built-in functions.
pub proof fn law_the_compiler_is_known_by_its_name(version: Seq<char>, name: Seq<char>)
    ensures
        names_compiler("libnvrtc.so"@ + version),
        !names_compiler("libnvrtc-builtins"@ + version),
        !"libnvrtc"@.is_prefix_of(name) ==> !names_compiler(name),
{
    reveal_strlit("libnvrtc");
    reveal_strlit("libnvrtc.so");
    reveal_strlit("libnvrtc-builtins");
    reveal_strlit(".so");
    let n = "libnvrtc.so"@ + version;
    assert(n.subrange(0, 8) =~= "libnvrtc"@);
    assert(n.subrange(8, 11) =~= ".so"@);
    assert(text::occurs_at(n, ".so"@, 8));
    if "libnvrtc-builtins"@.is_prefix_of(n) {
        assert(n[8] == "libnvrtc-builtins"@[8]);
    }
    let b = "libnvrtc-builtins"@ + version;
    assert(b.subrange(0, 17) =~= "libnvrtc-builtins"@);
}

/// Directories are looked through in the order of where they come from: the one that is set,
/// those that Python reports, those of the running library, those on the Python path, those
/// of CUDA, those of the prefixes, those on the library path, and those of the system.
pub proof fn law_places_are_searched_in_order(p: SearchPlaces)
    ensures
        p.explicit matches Some(dir) ==> candidates(p)[0] == dir@,
        p.explicit is None && p.reported@.len() > 0 ==> candidates(p)[0] == p.reported@[0]@,
        exists|rest: Seq<Seq<char>>|
            candidates(p) == present(p.explicit) + text::texts(p.reported@) + text::texts(p.own@)
                + text::texts(p.python_path@) + cuda_dirs(text::texts(p.cuda_roots@)) + rest,
        candidates(p).last() == "/usr/lib"@,
        forall|i: int|
            0 <= i < p.library_path@.len() ==> candidates(p).contains(
                (#[trigger] p.library_path@[i])@,
            ),
        forall|i: int|
            0 <= i < p.prefixes@.len() ==> candidates(p).contains((#[trigger] p.prefixes@[i])@),
{
    let all = candidates(p);
    let head = present(p.explicit) + text::texts(p.reported@) + text::texts(p.own@) + text::texts(
        p.python_path@,
    ) + cuda_dirs(text::texts(p.cuda_roots@));
    let fixed = seq!["/usr/local/cuda/lib64"@, "/usr/local/cuda/lib"@, "/opt/cuda/lib64"@];
    let prefixes = text::texts(p.prefixes@);
    let library = text::texts(p.library_path@);
    let system = seq!["/usr/lib/x86_64-linux-gnu"@, "/usr/lib64"@, "/usr/lib"@];
    let rest = fixed + prefixes + library + system;
    assert(all =~= head + rest);
    assert forall|i: int| 0 <= i < p.prefixes@.len() implies all.contains(
        (#[trigger] p.prefixes@[i])@,
    ) by {
        assert(all[head.len() + 3 + i] == prefixes[i]);
    }
    assert forall|i: int| 0 <= i < p.library_path@.len() implies all.contains(
        (#[trigger] p.library_path@[i])@,
    ) by {
        assert(all[head.len() + 3 + prefixes.len() + i] == library[i]);
    }
}

/// Names with a prefix are kept, in their order, and no others.
pub proof fn law_names_with_the_prefix_are_kept(
    names: Seq<Seq<char>>,
    prefix: Seq<char>,
    name: Seq<char>,
)
    ensures
        prefix.is_prefix_of(name) ==> starting_with(names.push(name), prefix) == starting_with(
            names,
            prefix,
        ).push(name),
        !prefix.is_prefix_of(name) ==> starting_with(names.push(name), prefix) == starting_with(
            names,
            prefix,
        ),
        starting_with(Seq::empty(), prefix) == Seq::<Seq<char>>::empty(),
{
    assert(names.push(name).drop_last() =~= names);
}

/// A run gives its code exactly where every call succeeds; otherwise the first call that fails
/// is named, and the log is shown where that is the compilation.
pub proof fn law_the_first_failure_is_reported(r: CompilerRun)
    ensures
        outcome(Some(r)) is Ok <==> r.create == 0 && r.compile == 0 && r.size == 0 && r.fetch == 0,
        outcome(Some(r)) matches Ok(code) ==> code == r.code@,
        r.create != 0 ==> outcome(Some(r)) == Err::<Seq<char>, Seq<char>>(
            "nvrtcCreateProgram"@ + " failed (code "@ + text::signed_decimal(r.create as int)
                + ")"@,
        ),
        r.create == 0 && r.compile != 0 ==> outcome(Some(r)) == Err::<Seq<char>, Seq<char>>(
            "nvrtcCompileProgram"@ + " failed (code "@ + text::signed_decimal(r.compile as int)
                + ")"@ + ":\n"@ + r.log@,
        ),
        outcome(None) is Err,
{
}

} // verus!
