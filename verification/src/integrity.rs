//! Vault integrity: which references in the vault and its PDF database point
//! at files or annotations that no longer exist, and where a moved file went.

use vstd::prelude::*;

use crate::paths::{extension, file_name, file_name_of, is_hidden, is_hidden_path, normalized_separators, normalize_separators, extension_of};
use crate::pdf_link::{decimal, ends_with_pdf_ignoring_case, parse_pdf_link, parse_pdf_link_spec, pdf_ext, push_decimal_u64};
use crate::text::{chars_equal, chars_of, ends_with, extend_chars, str_lowercase, string_of, trim_chars, trimmed};

verus! {

/// What is wrong with a reference.
#[derive(Debug, Clone, PartialEq, Eq)]
pub enum BrokenReferenceKind {
    MissingPdf,
    DeletedAnnotation,
    MissingNote,
    /// The file is gone from where the reference points, but a file of the
    /// same name exists elsewhere in the vault.
    MovedVaultPath { suggested_path: String },
}

/// A reference that no longer resolves.
#[derive(Debug, Clone, PartialEq, Eq)]
pub struct BrokenReference {
    pub kind: BrokenReferenceKind,
    /// Vault-relative path of the note or PDF holding the reference, or
    /// `database` for the PDF index.
    pub source_file: String,
    /// Vault-relative path, link text, or annotation id.
    pub target: String,
    /// Where the reference sits, for example `Line 12`.
    pub detail: String,
}

/// The mathematical content of a kind.
pub enum KindView {
    MissingPdf,
    DeletedAnnotation,
    MissingNote,
    MovedVaultPath(Seq<char>),
}

/// The mathematical content of a broken reference.
pub struct BrokenView {
    pub kind: KindView,
    pub source_file: Seq<char>,
    pub target: Seq<char>,
    pub detail: Seq<char>,
}

/// The mathematical content of a kind.
pub open spec fn kind_view(k: BrokenReferenceKind) -> KindView {
    match k {
        BrokenReferenceKind::MissingPdf => KindView::MissingPdf,
        BrokenReferenceKind::DeletedAnnotation => KindView::DeletedAnnotation,
        BrokenReferenceKind::MissingNote => KindView::MissingNote,
        BrokenReferenceKind::MovedVaultPath { suggested_path } => KindView::MovedVaultPath(
            suggested_path@,
        ),
    }
}

impl View for BrokenReference {
    type V = BrokenView;

    open spec fn view(&self) -> BrokenView {
        BrokenView {
            kind: kind_view(self.kind),
            source_file: self.source_file@,
            target: self.target@,
            detail: self.detail@,
        }
    }
}

// ---------------------------------------------------------------------------
// Listing the vault
// ---------------------------------------------------------------------------

/// A markdown file: extension `md` or `markdown`.
pub open spec fn is_markdown_path(p: Seq<char>) -> bool {
    extension_of(p) == Some(seq!['m', 'd']) || extension_of(p) == Some(
        seq!['m', 'a', 'r', 'k', 'd', 'o', 'w', 'n'],
    )
}

/// A PDF: extension `pdf`.
pub open spec fn is_pdf_path(p: Seq<char>) -> bool {
    extension_of(p) == Some(seq!['p', 'd', 'f'])
}

/// The files of one kind among walked paths, in walk order. Hidden
/// components and the extension are read from the path as walked, whose
/// components are separated by `/`; the path is listed with every `\`
/// turned into `/`.
pub open spec fn listed(paths: Seq<String>, markdown: bool) -> Seq<Seq<char>>
    decreases paths.len(),
{
    if paths.len() == 0 {
        seq![]
    } else {
        let rest = listed(paths.drop_last(), markdown);
        let raw = paths.last()@;
        if !is_hidden_path(raw) && (if markdown {
            is_markdown_path(raw)
        } else {
            is_pdf_path(raw)
        }) {
            rest.push(normalized_separators(raw))
        } else {
            rest
        }
    }
}

/// Sort walked vault paths (relative to the vault root, components joined by
/// `/`) into markdown notes and PDFs, skipping anything under a hidden
/// component; a `\` inside a name is listed as `/`.
pub fn list_all_files(paths: &Vec<String>) -> (r: (Vec<String>, Vec<String>))
    ensures
        r.0@.len() == listed(paths@, true).len(),
        forall|i: int| 0 <= i < r.0@.len() ==> (#[trigger] r.0@[i])@ == listed(paths@, true)[i],
        r.1@.len() == listed(paths@, false).len(),
        forall|i: int| 0 <= i < r.1@.len() ==> (#[trigger] r.1@[i])@ == listed(paths@, false)[i],
{
    let mut mds: Vec<String> = Vec::new();
    let mut pdfs: Vec<String> = Vec::new();
    let mut k: usize = 0;
    while k < paths.len()
        invariant
            k <= paths@.len(),
            mds@.len() == listed(paths@.take(k as int), true).len(),
            forall|i: int| 0 <= i < mds@.len() ==> (#[trigger] mds@[i])@ == listed(paths@.take(k as int), true)[i],
            pdfs@.len() == listed(paths@.take(k as int), false).len(),
            forall|i: int| 0 <= i < pdfs@.len() ==> (#[trigger] pdfs@[i])@ == listed(paths@.take(k as int), false)[i],
        decreases paths@.len() - k,
    {
        let ghost t = paths@.take(k + 1);
        assert(t.drop_last() =~= paths@.take(k as int));
        assert(t.last() == paths@[k as int]);
        let raw = paths[k].as_str();
        if !is_hidden(raw) {
            let rel = normalize_separators(raw);
            match extension(raw) {
                Some(ext) => {
                    let e = chars_of(ext.as_str());
                    if chars_equal(&e, &vec!['m', 'd']) || chars_equal(
                        &e,
                        &vec!['m', 'a', 'r', 'k', 'd', 'o', 'w', 'n'],
                    ) {
                        mds.push(rel);
                    } else if chars_equal(&e, &vec!['p', 'd', 'f']) {
                        pdfs.push(rel);
                    }
                },
                None => {},
            }
        }
        proof {
            assert(seq!['m', 'd'] != seq!['p', 'd', 'f']) by {
                assert(seq!['m', 'd'].len() != seq!['p', 'd', 'f'].len());
            }
            assert(seq!['m', 'a', 'r', 'k', 'd', 'o', 'w', 'n'] != seq!['p', 'd', 'f']) by {
                assert(seq!['m', 'a', 'r', 'k', 'd', 'o', 'w', 'n'].len() != seq!['p', 'd', 'f'].len());
            }
        }
        k = k + 1;
    }
    assert(paths@.take(k as int) =~= paths@);
    (mds, pdfs)
}

// ---------------------------------------------------------------------------
// Suggesting where a file went
// ---------------------------------------------------------------------------

/// The first listed path whose file name is `name`.
pub open spec fn first_named(list: Seq<String>, name: Seq<char>) -> Option<int>
    decreases list.len(),
{
    if list.len() == 0 {
        None
    } else if file_name_of(list[0]@) == Some(name) {
        Some(0)
    } else {
        match first_named(list.drop_first(), name) {
            Some(i) => Some(i + 1),
            None => None,
        }
    }
}

proof fn lemma_first_named(list: Seq<String>, name: Seq<char>)
    ensures
        first_named(list, name) matches Some(i) ==> 0 <= i < list.len() && file_name_of(
            list[i]@,
        ) == Some(name) && (forall|j: int|
            0 <= j < i ==> file_name_of(list[j]@) != Some(name)),
        first_named(list, name) is None ==> (forall|j: int|
            0 <= j < list.len() ==> file_name_of(list[j]@) != Some(name)),
    decreases list.len(),
{
    if list.len() > 0 && file_name_of(list[0]@) != Some(name) {
        lemma_first_named(list.drop_first(), name);
        assert forall|j: int| 1 <= j < list.len() implies list[j] == list.drop_first()[j - 1] by {}
    }
}

/// A PDF path by its lowercase form ending in `.pdf`.
pub open spec fn names_pdf(target: Seq<char>) -> bool {
    ends_with(str_lowercase(target), pdf_ext())
}

/// Where a missing file may have moved: the first file with the same name,
/// among the PDFs for a PDF target and among the notes otherwise.
pub open spec fn suggestion(target: Seq<char>, mds: Seq<String>, pdfs: Seq<String>) -> Option<Seq<char>> {
    match file_name_of(target) {
        None => None,
        Some(name) => {
            let list = if names_pdf(target) {
                pdfs
            } else {
                mds
            };
            match first_named(list, name) {
                Some(i) => Some(list[i]@),
                None => None,
            }
        },
    }
}

/// Find where a missing file may have moved: a file of the same name
/// elsewhere in the vault.
pub fn find_suggested_path(target: &str, existing_mds: &Vec<String>, existing_pdfs: &Vec<String>) -> (r: Option<String>)
    ensures
        r matches Some(s) ==> suggestion(target@, existing_mds@, existing_pdfs@) == Some(s@),
        r is None ==> suggestion(target@, existing_mds@, existing_pdfs@) is None,
{
    let name = match file_name(target) {
        Some(n) => chars_of(n.as_str()),
        None => return None,
    };
    let list = if ends_with_pdf_ignoring_case(target) {
        existing_pdfs
    } else {
        existing_mds
    };
    proof {
        lemma_first_named(list@, name@);
    }
    let mut k: usize = 0;
    while k < list.len()
        invariant
            file_name_of(target@) == Some(name@),
            list@ == (if names_pdf(target@) {
                existing_pdfs@
            } else {
                existing_mds@
            }),
            k <= list@.len(),
            forall|j: int| 0 <= j < k ==> file_name_of(list@[j]@) != Some(name@),
            first_named(list@, name@) matches Some(i) ==> 0 <= i < list@.len() && file_name_of(
                list@[i]@,
            ) == Some(name@) && (forall|j: int|
                0 <= j < i ==> file_name_of(list@[j]@) != Some(name@)),
            first_named(list@, name@) is None ==> (forall|j: int|
                0 <= j < list@.len() ==> file_name_of(list@[j]@) != Some(name@)),
        decreases list@.len() - k,
    {
        match file_name(list[k].as_str()) {
            Some(n) => {
                if chars_equal(&chars_of(n.as_str()), &name) {
                    return Some(list[k].clone());
                }
            },
            None => {},
        }
        k = k + 1;
    }
    None
}

// ---------------------------------------------------------------------------
// Checking references
// ---------------------------------------------------------------------------

/// A PDF the database has indexed.
#[derive(Debug, Clone)]
pub struct IndexedPdf {
    pub document_id: String,
    pub vault_relative_path: String,
}

/// An annotation that links a PDF page to a note.
#[derive(Debug, Clone)]
pub struct LinkedAnnotation {
    pub id: String,
    pub document_id: String,
    pub page_index: u16,
    pub linked_note_path: String,
}

/// A link found in a note: the note it is in, its target as written, its
/// zero-based line, and, for a link that is neither a PDF link nor a URI,
/// the vault path it resolves to (`None` for links the check leaves alone).
#[derive(Debug, Clone)]
pub struct NoteLink {
    pub source_file: String,
    pub target: String,
    pub line: usize,
    pub resolved_path: Option<String>,
}

/// Some listed path is `p`.
pub open spec fn has_path(list: Seq<String>, p: Seq<char>) -> bool {
    exists|i: int| 0 <= i < list.len() && (#[trigger] list[i])@ == p
}

/// A moved-file report if a file of the same name exists elsewhere, else
/// `otherwise`.
pub open spec fn moved_or(target: Seq<char>, mds: Seq<String>, pdfs: Seq<String>, otherwise: KindView) -> KindView {
    match suggestion(target, mds, pdfs) {
        Some(s) => KindView::MovedVaultPath(s),
        None => otherwise,
    }
}

/// The last entry with this document id (a later entry replaces an earlier
/// one, as when the rows are collected into a map).
pub open spec fn last_of_id(docs: Seq<IndexedPdf>, k: int) -> bool {
    forall|j: int| k < j < docs.len() ==> (#[trigger] docs[j]).document_id@ != docs[k].document_id@
}

/// Reports for indexed PDFs whose file is gone, over the first `n` entries.
pub open spec fn doc_refs(docs: Seq<IndexedPdf>, n: int, mds: Seq<String>, pdfs: Seq<String>) -> Seq<BrokenView>
    decreases n,
{
    if n <= 0 {
        seq![]
    } else {
        let rest = doc_refs(docs, n - 1, mds, pdfs);
        let d = docs[n - 1];
        if last_of_id(docs, n - 1) && !has_path(pdfs, d.vault_relative_path@) {
            rest.push(
                BrokenView {
                    kind: moved_or(d.vault_relative_path@, mds, pdfs, KindView::MissingPdf),
                    source_file: "database"@,
                    target: d.vault_relative_path@,
                    detail: "PDF Document ID: "@ + d.document_id@,
                },
            )
        } else {
            rest
        }
    }
}

/// The path of the last indexed PDF with this id.
pub open spec fn last_doc_path(docs: Seq<IndexedPdf>, id: Seq<char>) -> Option<Seq<char>>
    decreases docs.len(),
{
    if docs.len() == 0 {
        None
    } else if docs.last().document_id@ == id {
        Some(docs.last().vault_relative_path@)
    } else {
        last_doc_path(docs.drop_last(), id)
    }
}

/// The PDF an annotation's report names: its document's path, or
/// `unknown.pdf` for a document the index does not have.
pub open spec fn doc_path(docs: Seq<IndexedPdf>, id: Seq<char>) -> Seq<char> {
    match last_doc_path(docs, id) {
        Some(p) => p,
        None => "unknown.pdf"@,
    }
}

/// Reports for annotations linked to a note that is gone, over the first
/// `n` annotations.
pub open spec fn ann_refs(
    anns: Seq<LinkedAnnotation>,
    n: int,
    docs: Seq<IndexedPdf>,
    mds: Seq<String>,
    pdfs: Seq<String>,
) -> Seq<BrokenView>
    decreases n,
{
    if n <= 0 {
        seq![]
    } else {
        let rest = ann_refs(anns, n - 1, docs, mds, pdfs);
        let a = anns[n - 1];
        let note = a.linked_note_path@;
        if note.len() > 0 && !has_path(mds, note) {
            rest.push(
                BrokenView {
                    kind: moved_or(note, mds, pdfs, KindView::MissingNote),
                    source_file: doc_path(docs, a.document_id@),
                    target: note,
                    detail: "Annotation "@ + a.id@ + " on page "@ + decimal(a.page_index as nat),
                },
            )
        } else {
            rest
        }
    }
}

/// `Line N`, counting from one.
pub open spec fn line_detail(line: usize) -> Seq<char> {
    "Line "@ + decimal(line as nat + 1)
}

/// The report for one link, if it is broken: a PDF link to a missing file
/// or to a deleted annotation, or a note link whose resolved path is neither
/// a note nor a PDF. Empty targets and same-page anchors are skipped.
pub open spec fn link_ref(link: NoteLink, mds: Seq<String>, pdfs: Seq<String>, ann_ids: Seq<String>) -> Option<BrokenView> {
    let t = trimmed(link.target@);
    if t.len() == 0 || t[0] == '#' {
        None
    } else {
        match parse_pdf_link_spec(t) {
            Some((path, _page, ann)) => if !has_path(pdfs, path) {
                Some(
                    BrokenView {
                        kind: moved_or(path, mds, pdfs, KindView::MissingPdf),
                        source_file: link.source_file@,
                        target: t,
                        detail: line_detail(link.line),
                    },
                )
            } else {
                match ann {
                    Some(a) => if !has_path(ann_ids, a) {
                        Some(
                            BrokenView {
                                kind: KindView::DeletedAnnotation,
                                source_file: link.source_file@,
                                target: t,
                                detail: line_detail(link.line) + ", Annotation ID: "@ + a,
                            },
                        )
                    } else {
                        None
                    },
                    None => None,
                }
            },
            None => match link.resolved_path {
                Some(r) => if !has_path(mds, r@) && !has_path(pdfs, r@) {
                    Some(
                        BrokenView {
                            kind: moved_or(r@, mds, pdfs, KindView::MissingNote),
                            source_file: link.source_file@,
                            target: t,
                            detail: line_detail(link.line),
                        },
                    )
                } else {
                    None
                },
                None => None,
            },
        }
    }
}

/// Reports for the first `n` links.
pub open spec fn link_refs(
    links: Seq<NoteLink>,
    n: int,
    mds: Seq<String>,
    pdfs: Seq<String>,
    ann_ids: Seq<String>,
) -> Seq<BrokenView>
    decreases n,
{
    if n <= 0 {
        seq![]
    } else {
        let rest = link_refs(links, n - 1, mds, pdfs, ann_ids);
        match link_ref(links[n - 1], mds, pdfs, ann_ids) {
            Some(b) => rest.push(b),
            None => rest,
        }
    }
}

/// Whether `p` is one of the listed paths.
pub fn contains_path(list: &Vec<String>, p: &Vec<char>) -> (r: bool)
    ensures
        r == has_path(list@, p@),
{
    let mut k: usize = 0;
    while k < list.len()
        invariant
            k <= list@.len(),
            forall|j: int| 0 <= j < k ==> (#[trigger] list@[j])@ != p@,
        decreases list@.len() - k,
    {
        if chars_equal(&chars_of(list[k].as_str()), p) {
            return true;
        }
        k = k + 1;
    }
    false
}

fn kind_for(target: &str, mds: &Vec<String>, pdfs: &Vec<String>, otherwise: BrokenReferenceKind) -> (k: BrokenReferenceKind)
    requires
        !(otherwise is MovedVaultPath),
    ensures
        kind_view(k) == moved_or(target@, mds@, pdfs@, kind_view(otherwise)),
{
    match find_suggested_path(target, mds, pdfs) {
        Some(s) => BrokenReferenceKind::MovedVaultPath { suggested_path: s },
        None => otherwise,
    }
}

fn literal(s: &str) -> (r: String)
    ensures
        r@ == s@,
{
    string_of(&chars_of(s))
}

fn is_last_of_id(docs: &Vec<IndexedPdf>, k: usize) -> (r: bool)
    requires
        k < docs@.len(),
    ensures
        r == last_of_id(docs@, k as int),
{
    let id = chars_of(docs[k].document_id.as_str());
    let n = docs.len();
    assert(k < n);
    let mut j: usize = k + 1;
    while j < docs.len()
        invariant
            k < j <= docs@.len(),
            id@ == docs@[k as int].document_id@,
            forall|i: int| k < i < j ==> (#[trigger] docs@[i]).document_id@ != docs@[k as int].document_id@,
        decreases docs@.len() - j,
    {
        if chars_equal(&chars_of(docs[j].document_id.as_str()), &id) {
            return false;
        }
        j = j + 1;
    }
    true
}

fn find_doc_path(docs: &Vec<IndexedPdf>, id: &Vec<char>) -> (r: String)
    ensures
        r@ == doc_path(docs@, id@),
{
    let mut k: usize = docs.len();
    assert(docs@.take(k as int) =~= docs@);
    while k > 0
        invariant
            k <= docs@.len(),
            last_doc_path(docs@, id@) == last_doc_path(docs@.take(k as int), id@),
        decreases k,
    {
        let ghost t = docs@.take(k as int);
        assert(t.drop_last() =~= docs@.take(k - 1));
        assert(t.last() == docs@[k - 1]);
        if chars_equal(&chars_of(docs[k - 1].document_id.as_str()), id) {
            return docs[k - 1].vault_relative_path.clone();
        }
        k = k - 1;
    }
    literal("unknown.pdf")
}

fn line_text(line: usize) -> (r: Vec<char>)
    requires
        line < usize::MAX,
    ensures
        r@ == line_detail(line),
{
    let mut out = chars_of("Line ");
    push_decimal_u64(&mut out, line as u64 + 1);
    out
}

/// The report for one link, if it is broken.
pub fn link_report(link: &NoteLink, mds: &Vec<String>, pdfs: &Vec<String>, ann_ids: &Vec<String>) -> (r: Option<BrokenReference>)
    requires
        link.line < usize::MAX,
    ensures
        match link_ref(*link, mds@, pdfs@, ann_ids@) {
            Some(b) => r matches Some(x) && x@ == b,
            None => r is None,
        },
{
    let t = trim_chars(&chars_of(link.target.as_str()));
    if t.len() == 0 || t[0] == '#' {
        return None;
    }
    let target = string_of(&t);
    match parse_pdf_link(target.as_str()) {
        Some(pdf) => {
            if !contains_path(pdfs, &chars_of(pdf.path.as_str())) {
                let kind = kind_for(pdf.path.as_str(), mds, pdfs, BrokenReferenceKind::MissingPdf);
                return Some(
                    BrokenReference {
                        kind,
                        source_file: link.source_file.clone(),
                        target,
                        detail: string_of(&line_text(link.line)),
                    },
                );
            }
            match pdf.annotation_id {
                Some(a) => {
                    if !contains_path(ann_ids, &chars_of(a.as_str())) {
                        let mut detail = line_text(link.line);
                        extend_chars(&mut detail, &chars_of(", Annotation ID: "));
                        extend_chars(&mut detail, &chars_of(a.as_str()));
                        return Some(
                            BrokenReference {
                                kind: BrokenReferenceKind::DeletedAnnotation,
                                source_file: link.source_file.clone(),
                                target,
                                detail: string_of(&detail),
                            },
                        );
                    }
                    None
                },
                None => None,
            }
        },
        None => match &link.resolved_path {
            Some(r) => {
                let rc = chars_of(r.as_str());
                if !contains_path(mds, &rc) && !contains_path(pdfs, &rc) {
                    let kind = kind_for(r.as_str(), mds, pdfs, BrokenReferenceKind::MissingNote);
                    Some(
                        BrokenReference {
                            kind,
                            source_file: link.source_file.clone(),
                            target,
                            detail: string_of(&line_text(link.line)),
                        },
                    )
                } else {
                    None
                }
            },
            None => None,
        },
    }
}

/// Check the vault for missing PDFs, deleted annotations, missing notes and
/// moved vault paths.
///
/// Reports come in three runs: indexed PDFs whose file is gone (source
/// `database`), annotations linked to a note that is gone (source: the
/// annotation's PDF), and broken links in notes (source: the note). Where a
/// file of the same name exists elsewhere the report suggests it instead.
pub fn check_vault_integrity(
    existing_mds: &Vec<String>,
    existing_pdfs: &Vec<String>,
    docs: &Vec<IndexedPdf>,
    annotations: &Vec<LinkedAnnotation>,
    existing_annotation_ids: &Vec<String>,
    links: &Vec<NoteLink>,
) -> (broken: Vec<BrokenReference>)
    requires
        forall|i: int| 0 <= i < links@.len() ==> (#[trigger] links@[i]).line < usize::MAX,
    ensures
        ({
            let expected = doc_refs(docs@, docs@.len() as int, existing_mds@, existing_pdfs@)
                + ann_refs(annotations@, annotations@.len() as int, docs@, existing_mds@, existing_pdfs@)
                + link_refs(links@, links@.len() as int, existing_mds@, existing_pdfs@, existing_annotation_ids@);
            &&& broken@.len() == expected.len()
            &&& forall|i: int| 0 <= i < broken@.len() ==> (#[trigger] broken@[i])@ == expected[i]
        }),
{
    let mut broken: Vec<BrokenReference> = Vec::new();
    let mut k: usize = 0;
    while k < docs.len()
        invariant
            k <= docs@.len(),
            broken@.len() == doc_refs(docs@, k as int, existing_mds@, existing_pdfs@).len(),
            forall|i: int| 0 <= i < broken@.len() ==> (#[trigger] broken@[i])@ == doc_refs(docs@, k as int, existing_mds@, existing_pdfs@)[i],
        decreases docs@.len() - k,
    {
        let d = &docs[k];
        if is_last_of_id(docs, k) && !contains_path(existing_pdfs, &chars_of(d.vault_relative_path.as_str())) {
            let kind = kind_for(d.vault_relative_path.as_str(), existing_mds, existing_pdfs, BrokenReferenceKind::MissingPdf);
            let mut detail = chars_of("PDF Document ID: ");
            extend_chars(&mut detail, &chars_of(d.document_id.as_str()));
            broken.push(
                BrokenReference {
                    kind,
                    source_file: literal("database"),
                    target: d.vault_relative_path.clone(),
                    detail: string_of(&detail),
                },
            );
        }
        k = k + 1;
    }
    let ghost first = doc_refs(docs@, docs@.len() as int, existing_mds@, existing_pdfs@);
    let mut k: usize = 0;
    while k < annotations.len()
        invariant
            k <= annotations@.len(),
            first == doc_refs(docs@, docs@.len() as int, existing_mds@, existing_pdfs@),
            broken@.len() == first.len() + ann_refs(annotations@, k as int, docs@, existing_mds@, existing_pdfs@).len(),
            forall|i: int| 0 <= i < broken@.len() ==> (#[trigger] broken@[i])@ == (first + ann_refs(annotations@, k as int, docs@, existing_mds@, existing_pdfs@))[i],
        decreases annotations@.len() - k,
    {
        let a = &annotations[k];
        let note = chars_of(a.linked_note_path.as_str());
        let ghost before = first + ann_refs(annotations@, k as int, docs@, existing_mds@, existing_pdfs@);
        if note.len() > 0 && !contains_path(existing_mds, &note) {
            let kind = kind_for(a.linked_note_path.as_str(), existing_mds, existing_pdfs, BrokenReferenceKind::MissingNote);
            let mut detail = chars_of("Annotation ");
            extend_chars(&mut detail, &chars_of(a.id.as_str()));
            extend_chars(&mut detail, &chars_of(" on page "));
            push_decimal_u64(&mut detail, a.page_index as u64);
            let source = find_doc_path(docs, &chars_of(a.document_id.as_str()));
            broken.push(
                BrokenReference {
                    kind,
                    source_file: source,
                    target: a.linked_note_path.clone(),
                    detail: string_of(&detail),
                },
            );
            proof {
                assert(first + ann_refs(annotations@, k + 1, docs@, existing_mds@, existing_pdfs@) =~= before.push(broken@.last()@));
            }
        } else {
            proof {
                assert(first + ann_refs(annotations@, k + 1, docs@, existing_mds@, existing_pdfs@) =~= before);
            }
        }
        k = k + 1;
    }
    let ghost second = first + ann_refs(annotations@, annotations@.len() as int, docs@, existing_mds@, existing_pdfs@);
    let mut k: usize = 0;
    while k < links.len()
        invariant
            k <= links@.len(),
            forall|i: int| 0 <= i < links@.len() ==> (#[trigger] links@[i]).line < usize::MAX,
            broken@.len() == second.len() + link_refs(links@, k as int, existing_mds@, existing_pdfs@, existing_annotation_ids@).len(),
            forall|i: int| 0 <= i < broken@.len() ==> (#[trigger] broken@[i])@ == (second + link_refs(links@, k as int, existing_mds@, existing_pdfs@, existing_annotation_ids@))[i],
        decreases links@.len() - k,
    {
        let ghost before = second + link_refs(links@, k as int, existing_mds@, existing_pdfs@, existing_annotation_ids@);
        match link_report(&links[k], existing_mds, existing_pdfs, existing_annotation_ids) {
            Some(b) => {
                broken.push(b);
                proof {
                    assert(second + link_refs(links@, k + 1, existing_mds@, existing_pdfs@, existing_annotation_ids@) =~= before.push(broken@.last()@));
                }
            },
            None => {
                proof {
                    assert(second + link_refs(links@, k + 1, existing_mds@, existing_pdfs@, existing_annotation_ids@) =~= before);
                }
            },
        }
        k = k + 1;
    }
    broken
}


/// A note link (not a PDF link) whose resolved path is an existing note or
/// PDF is not broken.
pub proof fn lemma_link_to_existing_file_is_not_reported(
    link: NoteLink,
    mds: Seq<String>,
    pdfs: Seq<String>,
    ann_ids: Seq<String>,
)
    requires
        parse_pdf_link_spec(trimmed(link.target@)) is None,
        link.resolved_path matches Some(r) && ((exists|i: int| 0 <= i < mds.len() && mds[i]@ == r@)
            || (exists|i: int| 0 <= i < pdfs.len() && pdfs[i]@ == r@)),
    ensures
        link_ref(link, mds, pdfs, ann_ids) is None,
{
}

/// A note link (not a PDF link, not empty, not a same-page anchor) whose
/// resolved path is neither an existing note nor an existing PDF is reported
/// as a missing note, or as moved where a file of its name exists
/// elsewhere, at its line in its note.
pub proof fn lemma_link_to_missing_file_is_reported(
    link: NoteLink,
    mds: Seq<String>,
    pdfs: Seq<String>,
    ann_ids: Seq<String>,
)
    requires
        trimmed(link.target@).len() > 0,
        trimmed(link.target@)[0] != '#',
        parse_pdf_link_spec(trimmed(link.target@)) is None,
        link.resolved_path matches Some(r) && (forall|i: int| 0 <= i < mds.len() ==> mds[i]@ != r@)
            && (forall|i: int| 0 <= i < pdfs.len() ==> pdfs[i]@ != r@),
    ensures
        link_ref(link, mds, pdfs, ann_ids) matches Some(b) && b.source_file == link.source_file@
            && b.target == trimmed(link.target@) && b.detail == line_detail(link.line) && (
        b.kind is MissingNote || b.kind is MovedVaultPath),
{
}

/// Every report about an annotation names a note that is not an existing
/// markdown file, and every annotation whose linked note is set but is not
/// an existing markdown file gets a report naming that note.
pub proof fn lemma_annotation_reports_name_missing_notes(
    anns: Seq<LinkedAnnotation>,
    n: int,
    docs: Seq<IndexedPdf>,
    mds: Seq<String>,
    pdfs: Seq<String>,
)
    requires
        0 <= n <= anns.len(),
    ensures
        forall|k: int|
            0 <= k < ann_refs(anns, n, docs, mds, pdfs).len() ==> {
                let b = #[trigger] ann_refs(anns, n, docs, mds, pdfs)[k];
                &&& b.target.len() > 0
                &&& forall|i: int| 0 <= i < mds.len() ==> mds[i]@ != b.target
            },
        forall|a: int|
            0 <= a < n && (#[trigger] anns[a]).linked_note_path@.len() > 0 && (forall|i: int|
                0 <= i < mds.len() ==> mds[i]@ != anns[a].linked_note_path@) ==> exists|k: int|
                0 <= k < ann_refs(anns, n, docs, mds, pdfs).len() && ann_refs(
                    anns,
                    n,
                    docs,
                    mds,
                    pdfs,
                )[k].target == anns[a].linked_note_path@,
    decreases n,
{
    if n > 0 {
        lemma_annotation_reports_name_missing_notes(anns, n - 1, docs, mds, pdfs);
        let rest = ann_refs(anns, n - 1, docs, mds, pdfs);
        let all = ann_refs(anns, n, docs, mds, pdfs);
        let note = anns[n - 1].linked_note_path@;
        if note.len() > 0 && !has_path(mds, note) {
            assert(all.len() == rest.len() + 1);
            assert forall|k: int| 0 <= k < all.len() implies {
                let b = #[trigger] all[k];
                &&& b.target.len() > 0
                &&& forall|i: int| 0 <= i < mds.len() ==> mds[i]@ != b.target
            } by {
                if k < rest.len() {
                    assert(all[k] == rest[k]);
                } else {
                    assert(all[k].target == note);
                    assert forall|i: int| 0 <= i < mds.len() implies mds[i]@ != note by {
                        if mds[i]@ == note {
                            assert(has_path(mds, note));
                        }
                    }
                }
            }
            assert forall|a: int|
                0 <= a < n && (#[trigger] anns[a]).linked_note_path@.len() > 0 && (forall|i: int|
                    0 <= i < mds.len() ==> mds[i]@ != anns[a].linked_note_path@) implies exists|k: int|
                0 <= k < all.len() && all[k].target == anns[a].linked_note_path@ by {
                if a < n - 1 {
                    let k = choose|k: int| 0 <= k < rest.len() && rest[k].target == anns[a].linked_note_path@;
                    assert(all[k] == rest[k]);
                } else {
                    assert(all[rest.len() as int].target == note);
                }
            }
        } else {
            assert(all == rest);
            assert forall|a: int|
                0 <= a < n && (#[trigger] anns[a]).linked_note_path@.len() > 0 && (forall|i: int|
                    0 <= i < mds.len() ==> mds[i]@ != anns[a].linked_note_path@) implies exists|k: int|
                0 <= k < all.len() && all[k].target == anns[a].linked_note_path@ by {
                if a == n - 1 {
                    if note.len() > 0 {
                        let i = choose|i: int| 0 <= i < mds.len() && (#[trigger] mds[i])@ == note;
                        assert(mds[i]@ != anns[a].linked_note_path@);
                    }
                }
            }
        }
    }
}


/// A PDF link whose file is not an existing PDF is reported as a missing
/// PDF, or as moved where a file of its name exists elsewhere; one whose
/// file exists is reported only when it names an annotation id that no
/// longer exists, as a deleted annotation.
pub proof fn lemma_pdf_link_reports(
    link: NoteLink,
    mds: Seq<String>,
    pdfs: Seq<String>,
    ann_ids: Seq<String>,
)
    requires
        trimmed(link.target@).len() > 0,
        trimmed(link.target@)[0] != '#',
        parse_pdf_link_spec(trimmed(link.target@)) is Some,
    ensures
        ({
            let (path, _page, ann) = parse_pdf_link_spec(trimmed(link.target@))->0;
            let file_exists = exists|i: int| 0 <= i < pdfs.len() && pdfs[i]@ == path;
            let ann_exists = ann matches Some(a) ==> exists|i: int|
                0 <= i < ann_ids.len() && ann_ids[i]@ == a;
            &&& !file_exists ==> (link_ref(link, mds, pdfs, ann_ids) matches Some(b) && (b.kind is MissingPdf
                || b.kind is MovedVaultPath) && b.target == trimmed(link.target@))
            &&& file_exists && ann_exists ==> link_ref(link, mds, pdfs, ann_ids) is None
            &&& file_exists && !ann_exists ==> (link_ref(link, mds, pdfs, ann_ids) matches Some(b)
                && b.kind is DeletedAnnotation && b.target == trimmed(link.target@))
        }),
{
}

/// Every report about an indexed PDF names a file that is not an existing
/// PDF, with source `database`.
pub proof fn lemma_document_reports_name_missing_pdfs(
    docs: Seq<IndexedPdf>,
    n: int,
    mds: Seq<String>,
    pdfs: Seq<String>,
)
    requires
        0 <= n <= docs.len(),
    ensures
        forall|k: int|
            0 <= k < doc_refs(docs, n, mds, pdfs).len() ==> {
                let b = #[trigger] doc_refs(docs, n, mds, pdfs)[k];
                &&& b.source_file == "database"@
                &&& forall|i: int| 0 <= i < pdfs.len() ==> pdfs[i]@ != b.target
            },
    decreases n,
{
    if n > 0 {
        lemma_document_reports_name_missing_pdfs(docs, n - 1, mds, pdfs);
        let rest = doc_refs(docs, n - 1, mds, pdfs);
        let all = doc_refs(docs, n, mds, pdfs);
        let d = docs[n - 1];
        if last_of_id(docs, n - 1) && !has_path(pdfs, d.vault_relative_path@) {
            assert forall|k: int| 0 <= k < all.len() implies {
                let b = #[trigger] all[k];
                &&& b.source_file == "database"@
                &&& forall|i: int| 0 <= i < pdfs.len() ==> pdfs[i]@ != b.target
            } by {
                if k < rest.len() {
                    assert(all[k] == rest[k]);
                } else {
                    assert(all[k].target == d.vault_relative_path@);
                    assert forall|i: int| 0 <= i < pdfs.len() implies pdfs[i]@ != d.vault_relative_path@ by {
                        if pdfs[i]@ == d.vault_relative_path@ {
                            assert(has_path(pdfs, d.vault_relative_path@));
                        }
                    }
                }
            }
        } else {
            assert(all == rest);
        }
    }
}
} // verus!
