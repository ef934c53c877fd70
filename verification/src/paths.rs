//! Vault-relative paths: file names, extensions, hidden entries, separators.
//!
//! Vault paths always use `/` between components, whatever the platform;
//! these functions read them the way `std::path::Path` reads a Unix path.

use vstd::prelude::*;

use crate::pdf_link::{split_chars, split_on};
use crate::text::{chars_of, string_of};

verus! {

/// A component that names something: not empty and not `.`.
pub open spec fn meaningful(seg: Seq<char>) -> bool {
    seg.len() > 0 && seg != seq!['.']
}

/// The last meaningful component, if any.
pub open spec fn last_meaningful(segs: Seq<Seq<char>>) -> Option<Seq<char>>
    decreases segs.len(),
{
    if segs.len() == 0 {
        None
    } else if meaningful(segs.last()) {
        Some(segs.last())
    } else {
        last_meaningful(segs.drop_last())
    }
}

/// The final component of a path, as `Path::file_name` gives it: `None` for
/// a path with no components (such as `/` or `.`) or one that ends in `..`.
pub open spec fn file_name_of(path: Seq<char>) -> Option<Seq<char>> {
    match last_meaningful(split_on(path, '/')) {
        Some(s) => if s == seq!['.', '.'] {
            None
        } else {
            Some(s)
        },
        None => None,
    }
}

/// The last position holding `c`, if any.
pub open spec fn last_index(s: Seq<char>, c: char) -> Option<int>
    decreases s.len(),
{
    if s.len() == 0 {
        None
    } else if s.last() == c {
        Some(s.len() - 1)
    } else {
        last_index(s.drop_last(), c)
    }
}

/// The extension of a file name, as `Path::extension` gives it: what follows
/// the last `.`, unless there is none, or the only `.` starts the name, or
/// the name is `..`.
pub open spec fn extension_of_name(name: Seq<char>) -> Option<Seq<char>> {
    if name == seq!['.', '.'] {
        None
    } else {
        match last_index(name, '.') {
            Some(i) => if i == 0 {
                None
            } else {
                Some(name.skip(i + 1))
            },
            None => None,
        }
    }
}

/// The extension of a path's file name.
pub open spec fn extension_of(path: Seq<char>) -> Option<Seq<char>> {
    match file_name_of(path) {
        Some(n) => extension_of_name(n),
        None => None,
    }
}

pub(crate) proof fn lemma_last_index(s: Seq<char>, c: char)
    ensures
        last_index(s, c) matches Some(i) ==> 0 <= i < s.len() && s[i] == c && (forall|j: int|
            i < j < s.len() ==> s[j] != c),
        last_index(s, c) is None ==> (forall|j: int| 0 <= j < s.len() ==> s[j] != c),
    decreases s.len(),
{
    if s.len() > 0 && s.last() != c {
        lemma_last_index(s.drop_last(), c);
        assert forall|j: int| 0 <= j < s.len() - 1 implies s[j] == s.drop_last()[j] by {}
    }
}

fn is_dot_dot(s: &Vec<char>) -> (r: bool)
    ensures
        r == (s@ == seq!['.', '.']),
{
    let r = s.len() == 2 && s[0] == '.' && s[1] == '.';
    proof {
        if r {
            assert(s@ =~= seq!['.', '.']);
        }
    }
    r
}

/// The final component of a vault path.
pub fn file_name(path: &str) -> (r: Option<String>)
    ensures
        r matches Some(n) ==> file_name_of(path@) == Some(n@),
        r is None ==> file_name_of(path@) is None,
{
    let chars = chars_of(path);
    let segs = split_chars(&chars, '/');
    let ghost all = split_on(path@, '/');
    let mut k: usize = segs.len();
    assert(all.take(k as int) =~= all);
    while k > 0
        invariant
            all == split_on(path@, '/'),
            k <= segs@.len(),
            segs@.len() == all.len(),
            forall|i: int| 0 <= i < segs@.len() ==> #[trigger] segs@[i]@ == all[i],
            last_meaningful(all) == last_meaningful(all.take(k as int)),
        decreases k,
    {
        let seg = &segs[k - 1];
        let ghost t = all.take(k as int);
        assert(t.last() == seg@);
        assert(t.drop_last() =~= all.take(k - 1));
        if seg.len() > 0 && !(seg.len() == 1 && seg[0] == '.') {
            proof {
                assert(meaningful(seg@)) by {
                    if seg@ == seq!['.'] {
                        assert(seg@.len() == 1 && seg@[0] == '.');
                    }
                }
            }
            if is_dot_dot(seg) {
                return None;
            }
            return Some(string_of(seg));
        }
        proof {
            if seg@.len() == 1 {
                assert(seg@ =~= seq!['.']);
            }
            assert(!meaningful(seg@));
        }
        k = k - 1;
    }
    assert(all.take(0) =~= Seq::<Seq<char>>::empty());
    None
}

/// The extension of a vault path's file name.
pub fn extension(path: &str) -> (r: Option<String>)
    ensures
        r matches Some(e) ==> extension_of(path@) == Some(e@),
        r is None ==> extension_of(path@) is None,
{
    let name = match file_name(path) {
        Some(n) => n,
        None => return None,
    };
    let chars = chars_of(name.as_str());
    if is_dot_dot(&chars) {
        return None;
    }
    assert(file_name_of(path@) == Some(chars@));
    proof {
        lemma_last_index(chars@, '.');
    }
    let mut k: usize = chars.len();
    while k > 0
        invariant
            file_name_of(path@) == Some(chars@),
            chars@ != seq!['.', '.'],
            k <= chars@.len(),
            forall|j: int| k <= j < chars@.len() ==> chars@[j] != '.',
            last_index(chars@, '.') matches Some(i) ==> 0 <= i < chars@.len() && chars@[i] == '.'
                && (forall|j: int| i < j < chars@.len() ==> chars@[j] != '.'),
            last_index(chars@, '.') is None ==> (forall|j: int|
                0 <= j < chars@.len() ==> chars@[j] != '.'),
        decreases k,
    {
        if chars[k - 1] == '.' {
            if k - 1 == 0 {
                return None;
            }
            let mut rest: Vec<char> = Vec::new();
            let mut j: usize = k;
            while j < chars.len()
                invariant
                    k <= j <= chars@.len(),
                    rest@ == chars@.subrange(k as int, j as int),
                decreases chars@.len() - j,
            {
                rest.push(chars[j]);
                assert(chars@.subrange(k as int, j + 1) =~= chars@.subrange(k as int, j as int).push(
                    chars@[j as int],
                ));
                j = j + 1;
            }
            assert(rest@ =~= chars@.skip(k as int));
            return Some(string_of(&rest));
        }
        k = k - 1;
    }
    None
}

/// A vault path with every `\` turned into `/`.
pub open spec fn normalized_separators(path: Seq<char>) -> Seq<char> {
    path.map_values(|c: char| if c == '\\' { '/' } else { c })
}

/// Turn every `\` into `/`, so vault paths read the same on every platform.
pub fn normalize_separators(path: &str) -> (r: String)
    ensures
        r@ == normalized_separators(path@),
{
    let chars = chars_of(path);
    let mut out: Vec<char> = Vec::new();
    let mut i: usize = 0;
    while i < chars.len()
        invariant
            chars@ == path@,
            i <= chars@.len(),
            out@ == normalized_separators(chars@.take(i as int)),
        decreases chars@.len() - i,
    {
        let c = chars[i];
        out.push(if c == '\\' { '/' } else { c });
        assert(normalized_separators(chars@.take(i + 1)) =~= normalized_separators(
            chars@.take(i as int),
        ).push(if c == '\\' { '/' } else { c }));
        i = i + 1;
    }
    assert(chars@.take(i as int) =~= chars@);
    string_of(&out)
}

/// Some component of the path starts with `.`, so the scan skips it.
pub open spec fn is_hidden_path(path: Seq<char>) -> bool {
    exists|i: int|
        0 <= i < split_on(path, '/').len() && {
            let seg = #[trigger] split_on(path, '/')[i];
            seg.len() > 0 && seg[0] == '.'
        }
}

/// Whether any component of a vault path starts with `.`.
pub fn is_hidden(path: &str) -> (r: bool)
    ensures
        r == is_hidden_path(path@),
{
    let chars = chars_of(path);
    let segs = split_chars(&chars, '/');
    let ghost all = split_on(path@, '/');
    let mut k: usize = 0;
    while k < segs.len()
        invariant
            all == split_on(path@, '/'),
            k <= segs@.len(),
            segs@.len() == all.len(),
            forall|i: int| 0 <= i < segs@.len() ==> #[trigger] segs@[i]@ == all[i],
            forall|i: int| 0 <= i < k ==> !((#[trigger] all[i]).len() > 0 && all[i][0] == '.'),
        decreases segs@.len() - k,
    {
        let seg = &segs[k];
        if seg.len() > 0 && seg[0] == '.' {
            assert(all[k as int] == seg@);
            return true;
        }
        k = k + 1;
    }
    false
}

} // verus!
