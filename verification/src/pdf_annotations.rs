//! Editing PDF annotations: the tag list behind the tag editor, the review
//! status toggle, and the name and report of an annotation export.

use vstd::prelude::*;

use crate::paths::{file_name, file_name_of, last_index, lemma_last_index};
use crate::pdf_link::{lacks, lemma_index_of_append, lemma_split_single, split_chars, split_on};
use crate::text::{
    char_is_whitespace, chars_equal, chars_of, extend_chars, slice_chars, string_of, trim_chars,
    trim_end, trim_start, trimmed,
};

verus! {

/// The characters of each string, in order.
pub open spec fn string_views(v: Seq<String>) -> Seq<Seq<char>> {
    v.map_values(|t: String| t@)
}

/// What the tag filter keeps: a piece with something left in it.
pub open spec fn keeps_tag() -> spec_fn(Seq<char>) -> bool {
    |t: Seq<char>| t.len() > 0
}

/// The comma-separated pieces of `input`, each trimmed of whitespace.
pub open spec fn trimmed_pieces(input: Seq<char>) -> Seq<Seq<char>> {
    split_on(input, ',').map_values(|p: Seq<char>| trimmed(p))
}

/// The tags written in `input`: its comma-separated pieces, trimmed, with the
/// empty ones dropped, in the order written.
pub open spec fn tags_in(input: Seq<char>) -> Seq<Seq<char>> {
    trimmed_pieces(input).filter(keeps_tag())
}

/// The tags as the tag editor shows them: separated by a comma and a space.
pub open spec fn joined_tags(tags: Seq<Seq<char>>) -> Seq<char>
    decreases tags.len(),
{
    if tags.len() == 0 {
        seq![]
    } else if tags.len() == 1 {
        tags[0]
    } else {
        tags[0] + seq![',', ' '] + joined_tags(tags.drop_first())
    }
}

/// Read the tags typed into the tag editor.
pub fn parse_annotation_tags(input: &str) -> (tags: Vec<String>)
    ensures
        string_views(tags@) == tags_in(input@),
{
    let chars = chars_of(input);
    let parts = split_chars(&chars, ',');
    let ghost pieces = trimmed_pieces(input@);
    let mut tags: Vec<String> = Vec::new();
    let mut i: usize = 0;
    while i < parts.len()
        invariant
            i <= parts@.len(),
            pieces == trimmed_pieces(input@),
            parts@.len() == split_on(input@, ',').len(),
            forall|k: int| 0 <= k < parts@.len() ==> #[trigger] parts@[k]@ == split_on(input@, ',')[k],
            string_views(tags@) == pieces.take(i as int).filter(keeps_tag()),
        decreases parts@.len() - i,
    {
        let t = trim_chars(&parts[i]);
        proof {
            assert(pieces[i as int] == t@);
            assert(pieces.take(i + 1) =~= pieces.take(i as int).push(t@));
            pieces.take(i as int).lemma_filter_push(t@, keeps_tag());
        }
        if t.len() > 0 {
            let s = string_of(&t);
            let ghost before = tags@;
            tags.push(s);
            assert(string_views(tags@) =~= string_views(before).push(t@));
        }
        i = i + 1;
    }
    assert(pieces.take(i as int) =~= pieces);
    tags
}

proof fn lemma_joined_push(tags: Seq<Seq<char>>, t: Seq<char>)
    ensures
        joined_tags(tags.push(t)) == if tags.len() == 0 {
            t
        } else {
            joined_tags(tags) + seq![',', ' '] + t
        },
    decreases tags.len(),
{
    let s = tags.push(t);
    if tags.len() == 0 {
        assert(s.len() == 1 && s[0] == t);
    } else if tags.len() == 1 {
        assert(s.drop_first() =~= seq![t]);
        assert(joined_tags(s.drop_first()) == t);
        assert(s[0] == tags[0]);
        assert(joined_tags(tags) == tags[0]);
    } else {
        assert(s.drop_first() =~= tags.drop_first().push(t));
        lemma_joined_push(tags.drop_first(), t);
        assert(s[0] == tags[0]);
        assert(joined_tags(s) =~= joined_tags(tags) + seq![',', ' '] + t);
    }
}

/// Show tags in the tag editor.
pub fn join_annotation_tags(tags: &Vec<String>) -> (r: String)
    ensures
        r@ == joined_tags(string_views(tags@)),
{
    let mut out: Vec<char> = Vec::new();
    let mut i: usize = 0;
    while i < tags.len()
        invariant
            i <= tags@.len(),
            out@ == joined_tags(string_views(tags@).take(i as int)),
        decreases tags@.len() - i,
    {
        let t = chars_of(tags[i].as_str());
        proof {
            assert(string_views(tags@).take(i + 1) =~= string_views(tags@).take(i as int).push(
                t@,
            ));
            lemma_joined_push(string_views(tags@).take(i as int), t@);
        }
        if i > 0 {
            out.push(',');
            out.push(' ');
        }
        extend_chars(&mut out, &t);
        proof {
            if i == 0 {
                assert(out@ =~= t@);
            }
        }
        i = i + 1;
    }
    assert(string_views(tags@).take(i as int) =~= string_views(tags@));
    string_of(&out)
}

proof fn lemma_trim_start_skip(s: Seq<char>) -> (k: int)
    ensures
        0 <= k <= s.len(),
        trim_start(s) == s.skip(k),
        k < s.len() ==> !char_is_whitespace(s[k]),
    decreases s.len(),
{
    if s.len() > 0 && char_is_whitespace(s[0]) {
        let j = lemma_trim_start_skip(s.drop_first());
        assert(s.drop_first().skip(j) =~= s.skip(j + 1));
        if j < s.drop_first().len() {
            assert(s.drop_first()[j] == s[j + 1]);
        }
        j + 1
    } else {
        assert(s.skip(0) =~= s);
        0
    }
}

proof fn lemma_trim_end_take(s: Seq<char>) -> (k: int)
    ensures
        0 <= k <= s.len(),
        trim_end(s) == s.take(k),
        k > 0 ==> !char_is_whitespace(s[k - 1]),
    decreases s.len(),
{
    if s.len() > 0 && char_is_whitespace(s.last()) {
        let j = lemma_trim_end_take(s.drop_last());
        assert(s.drop_last().take(j) =~= s.take(j));
        if j > 0 {
            assert(s.drop_last()[j - 1] == s[j - 1]);
        }
        j
    } else {
        assert(s.take(s.len() as int) =~= s);
        s.len() as int
    }
}

/// A trimmed piece is a stretch of the piece, and when it is not empty it
/// neither starts nor ends with whitespace.
proof fn lemma_trimmed_shape(s: Seq<char>)
    ensures
        trimmed(s).len() > 0 ==> !char_is_whitespace(trimmed(s)[0]) && !char_is_whitespace(
            trimmed(s).last(),
        ),
        lacks(s, ',') ==> lacks(trimmed(s), ','),
{
    let a = lemma_trim_start_skip(s);
    let u = s.skip(a);
    let b = lemma_trim_end_take(u);
    assert(trimmed(s) == u.take(b));
    if b > 0 {
        assert(u.take(b)[0] == s[a]);
        assert(u.take(b).last() == u[b - 1]);
    }
    assert forall|i: int| 0 <= i < u.take(b).len() implies u.take(b)[i] == s[a + i] by {}
}

/// A piece that neither starts nor ends with whitespace is left alone by
/// trimming, and so is its copy behind one space.
proof fn lemma_trimmed_fixed(t: Seq<char>)
    requires
        t.len() > 0,
        !char_is_whitespace(t[0]),
        !char_is_whitespace(t.last()),
    ensures
        trimmed(t) == t,
        trimmed(seq![' '] + t) == t,
{
    let sp = seq![' '] + t;
    assert(char_is_whitespace(' '));
    assert(sp[0] == ' ');
    assert(sp.drop_first() =~= t);
    assert(trim_start(sp) == trim_start(t));
}

proof fn lemma_split_pieces_lack(s: Seq<char>, sep: char)
    ensures
        forall|i: int| 0 <= i < split_on(s, sep).len() ==> lacks(#[trigger] split_on(s, sep)[i], sep),
    decreases s.len(),
{
    crate::text::lemma_index_of(s, sep);
    match crate::text::index_of(s, sep) {
        Some(i) => {
            lemma_split_pieces_lack(s.skip(i + 1), sep);
            let rest = split_on(s.skip(i + 1), sep);
            assert(split_on(s, sep) == seq![s.take(i)] + rest);
            assert forall|k: int| 0 <= k < split_on(s, sep).len() implies lacks(
                #[trigger] split_on(s, sep)[k],
                sep,
            ) by {
                if k > 0 {
                    assert(split_on(s, sep)[k] == rest[k - 1]);
                }
            }
        },
        None => {},
    }
}

/// How the tag editor's text splits at commas: the first piece is the first
/// tag behind `p`, every later piece is a tag behind one space.
proof fn lemma_split_joined(p: Seq<char>, tags: Seq<Seq<char>>)
    requires
        tags.len() >= 1,
        lacks(p, ','),
        forall|i: int| 0 <= i < tags.len() ==> lacks(#[trigger] tags[i], ','),
    ensures
        split_on(p + joined_tags(tags), ',').len() == tags.len(),
        split_on(p + joined_tags(tags), ',')[0] == p + tags[0],
        forall|i: int|
            1 <= i < tags.len() ==> #[trigger] split_on(p + joined_tags(tags), ',')[i] == seq![' ']
                + tags[i],
    decreases tags.len(),
{
    let first = p + tags[0];
    assert(lacks(first, ',')) by {
        assert(lacks(tags[0], ','));
        assert forall|k: int| 0 <= k < first.len() implies first[k] != ',' by {
            if k >= p.len() {
                assert(first[k] == tags[0][k - p.len()]);
            }
        }
    }
    if tags.len() == 1 {
        assert(p + joined_tags(tags) =~= first);
        lemma_split_single(first, ',');
    } else {
        let rest = tags.drop_first();
        let tail = seq![' '] + joined_tags(rest);
        let whole = p + joined_tags(tags);
        assert(whole =~= first + (seq![','] + tail));
        lemma_index_of_append(first, seq![','] + tail, ',');
        assert(crate::text::index_of(seq![','] + tail, ',') == Some(0int));
        assert(whole.take(first.len() as int) =~= first);
        assert(whole.skip(first.len() as int + 1) =~= tail);
        assert(split_on(whole, ',') == seq![first] + split_on(tail, ','));
        assert(lacks(seq![' '], ','));
        assert forall|i: int| 0 <= i < rest.len() implies lacks(#[trigger] rest[i], ',') by {
            assert(rest[i] == tags[i + 1]);
        }
        lemma_split_joined(seq![' '], rest);
        assert forall|i: int| 1 <= i < tags.len() implies #[trigger] split_on(whole, ',')[i]
            == seq![' '] + tags[i] by {
            assert(split_on(whole, ',')[i] == split_on(tail, ',')[i - 1]);
            assert(rest[i - 1] == tags[i]);
        }
    }
}

proof fn lemma_filter_keeps_all(s: Seq<Seq<char>>)
    requires
        forall|i: int| 0 <= i < s.len() ==> (#[trigger] s[i]).len() > 0,
    ensures
        s.filter(keeps_tag()) == s,
    decreases s.len(),
{
    reveal(Seq::filter);
    if s.len() > 0 {
        let d = s.drop_last();
        assert forall|i: int| 0 <= i < d.len() implies (#[trigger] d[i]).len() > 0 by {
            assert(d[i] == s[i]);
        }
        lemma_filter_keeps_all(d);
        assert(s =~= d.push(s.last()));
        d.lemma_filter_push(s.last(), keeps_tag());
    }
}

/// Tags shown in the tag editor and saved back unchanged are the tags that
/// were shown, when each tag is non-empty, holds no comma, and neither starts
/// nor ends with whitespace.
pub proof fn lemma_tags_round_trip(tags: Seq<Seq<char>>)
    requires
        forall|i: int|
            0 <= i < tags.len() ==> {
                &&& (#[trigger] tags[i]).len() > 0
                &&& lacks(tags[i], ',')
                &&& trimmed(tags[i]) == tags[i]
            },
    ensures
        tags_in(joined_tags(tags)) == tags,
{
    if tags.len() == 0 {
        lemma_split_single(seq![], ',');
        let pieces = trimmed_pieces(joined_tags(tags));
        assert(pieces.len() == 1);
        assert(pieces[0] == trimmed(seq![]));
        assert(trimmed(Seq::<char>::empty()) =~= seq![]);
        let none = Seq::<Seq<char>>::empty();
        assert(pieces =~= none.push(pieces[0]));
        none.lemma_filter_push(pieces[0], keeps_tag());
        reveal(Seq::filter);
        assert(none.filter(keeps_tag()) =~= none);
    } else {
        lemma_split_joined(seq![], tags);
        assert(seq![] + joined_tags(tags) =~= joined_tags(tags));
        assert(seq![] + tags[0] =~= tags[0]);
        let pieces = trimmed_pieces(joined_tags(tags));
        assert forall|i: int| 0 <= i < tags.len() implies #[trigger] pieces[i] == tags[i] by {
            lemma_trimmed_shape(tags[i]);
            lemma_trimmed_fixed(tags[i]);
        }
        assert(pieces =~= tags);
        lemma_filter_keeps_all(tags);
    }
}

/// Tags read from the tag editor, shown again and saved back unchanged, stay
/// the same tags.
pub proof fn lemma_parsed_tags_round_trip(input: Seq<char>)
    ensures
        tags_in(joined_tags(tags_in(input))) == tags_in(input),
{
    let pieces = trimmed_pieces(input);
    let tags = tags_in(input);
    lemma_split_pieces_lack(input, ',');
    assert forall|i: int| 0 <= i < tags.len() implies {
        &&& (#[trigger] tags[i]).len() > 0
        &&& lacks(tags[i], ',')
        &&& trimmed(tags[i]) == tags[i]
    } by {
        pieces.lemma_filter_pred(keeps_tag(), i);
        assert(tags.contains(tags[i]));
        pieces.lemma_filter_contains_rev(keeps_tag(), tags[i]);
        let k = choose|k: int| 0 <= k < pieces.len() && pieces[k] == tags[i];
        let raw = split_on(input, ',')[k];
        assert(pieces[k] == trimmed(raw));
        lemma_trimmed_shape(raw);
        lemma_trimmed_fixed(tags[i]);
    }
    lemma_tags_round_trip(tags);
}

/// The note kept for an annotation from what was typed: the text without
/// its surrounding whitespace, or no note when nothing is left.
pub fn annotation_note(input: &str) -> (note: Option<String>)
    ensures
        trimmed(input@).len() == 0 ==> note is None,
        trimmed(input@).len() > 0 ==> (note matches Some(n) && n@ == trimmed(input@)),
{
    let t = trim_chars(&chars_of(input));
    if t.len() == 0 {
        None
    } else {
        Some(string_of(&t))
    }
}

/// Whether an annotation still asks for attention.
#[derive(Debug, Clone, Copy, PartialEq, Eq, Structural)]
pub enum AnnotationStatus {
    Unresolved,
    Resolved,
}

impl AnnotationStatus {
    /// The other status.
    pub open spec fn flipped(self) -> AnnotationStatus {
        match self {
            AnnotationStatus::Unresolved => AnnotationStatus::Resolved,
            AnnotationStatus::Resolved => AnnotationStatus::Unresolved,
        }
    }

    /// The status after the user flips it.
    pub fn toggled(self) -> (r: AnnotationStatus)
        ensures
            r == self.flipped(),
    {
        match self {
            AnnotationStatus::Unresolved => AnnotationStatus::Resolved,
            AnnotationStatus::Resolved => AnnotationStatus::Unresolved,
        }
    }
}

/// Flipping an annotation's status twice gives back the status it had.
pub proof fn lemma_status_toggle_twice(s: AnnotationStatus)
    ensures
        s.flipped().flipped() == s,
        s.flipped() != s,
{
}

/// The stem of a file name, as `Path::file_stem` reads it: the name before its
/// last `.`, or the whole name when it has no `.` or its only `.` starts it.
pub open spec fn stem_of_name(name: Seq<char>) -> Seq<char> {
    match last_index(name, '.') {
        Some(i) => if i == 0 {
            name
        } else {
            name.take(i)
        },
        None => name,
    }
}

/// The name an export of the annotations of the PDF at `path` is offered
/// under: the PDF's file stem, or `document` for a path with no file name,
/// followed by `-annotations.md`.
pub open spec fn export_file_name_for(path: Seq<char>) -> Seq<char> {
    let stem = match file_name_of(path) {
        Some(n) => stem_of_name(n),
        None => seq!['d', 'o', 'c', 'u', 'm', 'e', 'n', 't'],
    };
    stem + seq!['-', 'a', 'n', 'n', 'o', 't', 'a', 't', 'i', 'o', 'n', 's', '.', 'm', 'd']
}

fn name_stem(name: &Vec<char>) -> (r: Vec<char>)
    ensures
        r@ == stem_of_name(name@),
{
    proof {
        lemma_last_index(name@, '.');
    }
    let mut k: usize = name.len();
    while k > 0
        invariant
            k <= name@.len(),
            forall|j: int| k <= j < name@.len() ==> name@[j] != '.',
            last_index(name@, '.') matches Some(i) ==> 0 <= i < name@.len() && name@[i] == '.'
                && (forall|j: int| i < j < name@.len() ==> name@[j] != '.'),
            last_index(name@, '.') is None ==> (forall|j: int|
                0 <= j < name@.len() ==> name@[j] != '.'),
        decreases k,
    {
        if name[k - 1] == '.' {
            proof {
                assert(last_index(name@, '.') == Some(k - 1));
            }
            if k - 1 == 0 {
                return slice_chars(name, 0, name.len());
            }
            return slice_chars(name, 0, k - 1);
        }
        k = k - 1;
    }
    proof {
        assert(last_index(name@, '.') is None);
    }
    slice_chars(name, 0, name.len())
}

/// The file name offered for an export of the annotations of the PDF at
/// `pdf_path`.
pub fn annotation_export_file_name(pdf_path: &str) -> (r: String)
    ensures
        r@ == export_file_name_for(pdf_path@),
{
    let mut out = match file_name(pdf_path) {
        Some(n) => name_stem(&chars_of(n.as_str())),
        None => {
            proof {
                reveal_strlit("document");
            }
            chars_of("document")
        },
    };
    proof {
        reveal_strlit("-annotations.md");
    }
    let suffix = chars_of("-annotations.md");
    extend_chars(&mut out, &suffix);
    string_of(&out)
}

/// What the user is told once an export ends: where the file went, the
/// error, or nothing when the save dialog was cancelled.
pub fn export_outcome_message(outcome: &Result<String, String>) -> (msg: Option<String>)
    ensures
        match outcome {
            Ok(path) => msg matches Some(m) && m@ == "Exported to "@ + path@,
            Err(e) => if e@ == "Export cancelled"@ {
                msg is None
            } else {
                msg matches Some(m) && m@ == e@
            },
        },
{
    match outcome {
        Ok(path) => {
            let mut out = chars_of("Exported to ");
            extend_chars(&mut out, &chars_of(path.as_str()));
            Some(string_of(&out))
        },
        Err(e) => {
            let err = chars_of(e.as_str());
            if chars_equal(&err, &chars_of("Export cancelled")) {
                None
            } else {
                Some(string_of(&err))
            }
        },
    }
}

} // verus!
