//! Command-line handling and the Linux desktop entry the installer writes.

use vstd::prelude::*;

use crate::text::{chars_equal, chars_of, extend_chars, starts_with, string_of};

verus! {

/// What the process was asked to do.
#[derive(Debug, Clone, PartialEq, Eq)]
pub enum CliAction {
    Install,
    Uninstall,
    /// A file or directory passed by the OS file handler (the desktop entry
    /// declares `Exec=... %F`) or on the command line.
    OpenPath(String),
    RunApp,
}

/// `--install` or `--install-desktop`.
pub open spec fn is_install_flag(s: Seq<char>) -> bool {
    s == "--install"@ || s == "--install-desktop"@
}

/// `--uninstall` or `--uninstall-desktop`.
pub open spec fn is_uninstall_flag(s: Seq<char>) -> bool {
    s == "--uninstall"@ || s == "--uninstall-desktop"@
}

/// What the first argument after the program name asks for: an install or
/// uninstall flag, a path to open (anything not starting with `-`), or, for
/// any other flag or no argument at all, a normal run.
pub open spec fn cli_action_matches(args: Seq<String>, action: CliAction) -> bool {
    if args.len() <= 1 {
        action == CliAction::RunApp
    } else {
        let cmd = args[1]@;
        if is_install_flag(cmd) {
            action == CliAction::Install
        } else if is_uninstall_flag(cmd) {
            action == CliAction::Uninstall
        } else if !starts_with(cmd, seq!['-']) {
            action matches CliAction::OpenPath(p) && p@ == cmd
        } else {
            action == CliAction::RunApp
        }
    }
}

fn equals_literal(s: &Vec<char>, lit: &str) -> (r: bool)
    ensures
        r == (s@ == lit@),
{
    let l = chars_of(lit);
    chars_equal(s, &l)
}

/// Decide what to do from the process arguments (`args[0]` is the program).
pub fn parse_cli_args(args: &[String]) -> (action: CliAction)
    ensures
        cli_action_matches(args@, action),
{
    if args.len() > 1 {
        let cmd = chars_of(args[1].as_str());
        if equals_literal(&cmd, "--install") || equals_literal(&cmd, "--install-desktop") {
            return CliAction::Install;
        } else if equals_literal(&cmd, "--uninstall") || equals_literal(
            &cmd,
            "--uninstall-desktop",
        ) {
            return CliAction::Uninstall;
        } else if !(cmd.len() > 0 && cmd[0] == '-') {
            proof {
                if starts_with(cmd@, seq!['-']) {
                    assert(cmd@.take(1)[0] == '-');
                }
            }
            return CliAction::OpenPath(string_of(&cmd));
        }
        proof {
            assert(cmd@.take(1) =~= seq!['-']);
        }
    }
    CliAction::RunApp
}

/// The icon sizes, in pixels, installed into the hicolor theme.
pub fn icon_sizes() -> (sizes: Vec<u32>)
    ensures
        sizes@ == seq![16u32, 32, 48, 64, 128, 256, 512],
{
    let v: Vec<u32> = vec![16, 32, 48, 64, 128, 256, 512];
    v
}

/// A decoded image, as the `image` crate holds it.
#[verifier::external_type_specification]
#[verifier::external_body]
pub struct ExDynamicImage(image::DynamicImage);

/// Calls `image::load_from_memory`. Nothing is claimed of the result: the
/// decoders consulted include any the process has registered as hooks.
#[verifier::external_body]
fn load_image(bytes: &[u8]) -> (r: Option<image::DynamicImage>) {
    image::load_from_memory(bytes).ok()
}

/// Calls `DynamicImage::resize_exact` with Lanczos filtering, to a square of
/// `size` pixels. Nothing is claimed: the filter's floating-point results
/// may differ between platforms.
#[verifier::external_body]
fn resize_square(image: &image::DynamicImage, size: u32) -> (r: image::DynamicImage) {
    image.resize_exact(size, size, image::imageops::FilterType::Lanczos3)
}

/// Calls `DynamicImage::write_to` into an empty buffer, as PNG. Nothing is
/// claimed of the bytes, nor of when the encoder fails.
#[verifier::external_body]
fn encode_png(image: &image::DynamicImage) -> (r: Option<Vec<u8>>) {
    let mut bytes: Vec<u8> = Vec::new();
    match image.write_to(&mut std::io::Cursor::new(&mut bytes), image::ImageFormat::Png) {
        Ok(()) => Some(bytes),
        Err(_) => None,
    }
}

/// The application icon at one installed size.
pub struct IconRendition {
    pub size: u32,
    pub png: Vec<u8>,
}

/// The icon sizes installed into the hicolor theme, smallest first.
pub open spec fn installed_icon_sizes() -> Seq<u32> {
    seq![16u32, 32, 48, 64, 128, 256, 512]
}

/// The renditions kept of the icon encoded at each of `sizes`: a size is
/// kept, with its PNG bytes, when its encoding succeeded, in the order of
/// `sizes`.
pub open spec fn kept_renditions(sizes: Seq<u32>, encoded: Seq<Option<Seq<u8>>>) -> Seq<(u32, Seq<u8>)>
    decreases sizes.len(),
{
    if sizes.len() == 0 || encoded.len() == 0 {
        seq![]
    } else {
        let rest = kept_renditions(sizes.drop_last(), encoded.drop_last());
        match encoded.last() {
            Some(png) => rest.push((sizes.last(), png)),
            None => rest,
        }
    }
}

/// Renditions as sizes and bytes.
pub open spec fn renditions_view(r: Seq<IconRendition>) -> Seq<(u32, Seq<u8>)> {
    r.map_values(|x: IconRendition| (x.size, x.png@))
}

/// Encoding results as byte sequences.
pub open spec fn encoded_view(e: Seq<Option<Vec<u8>>>) -> Seq<Option<Seq<u8>>> {
    e.map_values(
        |o: Option<Vec<u8>>|
            match o {
                Some(v) => Some(v@),
                None => None,
            },
    )
}

proof fn lemma_kept_sizes(sizes: Seq<u32>, encoded: Seq<Option<Seq<u8>>>)
    requires
        sizes.len() == encoded.len(),
        forall|m: int, n: int| 0 <= m < n < sizes.len() ==> sizes[m] < sizes[n],
    ensures
        forall|i: int|
            0 <= i < kept_renditions(sizes, encoded).len() ==> sizes.contains(
                #[trigger] kept_renditions(sizes, encoded)[i].0,
            ),
        forall|i: int, j: int|
            0 <= i < j < kept_renditions(sizes, encoded).len() ==> #[trigger] kept_renditions(
                sizes,
                encoded,
            )[i].0 < #[trigger] kept_renditions(sizes, encoded)[j].0,
        forall|i: int|
            0 <= i < kept_renditions(sizes, encoded).len() && sizes.len() > 0 ==> #[trigger] kept_renditions(
                sizes,
                encoded,
            )[i].0 <= sizes.last(),
    decreases sizes.len(),
{
    if sizes.len() > 0 {
        let ds = sizes.drop_last();
        let de = encoded.drop_last();
        lemma_kept_sizes(ds, de);
        let rest = kept_renditions(ds, de);
        let k = kept_renditions(sizes, encoded);
        let top = sizes.last();
        assert forall|i: int| 0 <= i < rest.len() implies sizes.contains(#[trigger] rest[i].0)
            && rest[i].0 < top by {
            assert(ds.contains(rest[i].0));
            let m = choose|m: int| 0 <= m < ds.len() && ds[m] == rest[i].0;
            assert(sizes[m] == ds[m]);
            assert(sizes[m] < sizes[sizes.len() - 1]);
        }
        if encoded.last() is Some {
            assert(k == rest.push((top, encoded.last()->0)));
            assert forall|i: int| 0 <= i < k.len() implies sizes.contains(#[trigger] k[i].0) && k[i].0 <= top by {
                if i < rest.len() {
                    assert(k[i] == rest[i]);
                } else {
                    assert(k[i].0 == sizes[sizes.len() - 1]);
                }
            }
            assert forall|i: int, j: int| 0 <= i < j < k.len() implies #[trigger] k[i].0
                < #[trigger] k[j].0 by {
                assert(k[i] == rest[i]);
                if j < rest.len() {
                    assert(k[j] == rest[j]);
                }
            }
        } else {
            assert(k == rest);
        }
    }
}

fn copy_bytes(v: &Vec<u8>) -> (r: Vec<u8>)
    ensures
        r@ == v@,
{
    let mut r: Vec<u8> = Vec::new();
    let mut i: usize = 0;
    while i < v.len()
        invariant
            i <= v@.len(),
            r@ == v@.take(i as int),
        decreases v@.len() - i,
    {
        r.push(v[i]);
        assert(v@.take(i + 1) =~= v@.take(i as int).push(v@[i as int]));
        i = i + 1;
    }
    assert(v@.take(i as int) =~= v@);
    r
}

/// Keep the renditions whose encoding succeeded: `encoded` holds the result
/// of encoding the icon at each of `sizes`, in the same order.
pub fn keep_encoded_renditions(sizes: &Vec<u32>, encoded: &Vec<Option<Vec<u8>>>) -> (r: Vec<IconRendition>)
    requires
        sizes@.len() == encoded@.len(),
    ensures
        renditions_view(r@) == kept_renditions(sizes@, encoded_view(encoded@)),
{
    let ghost e = encoded_view(encoded@);
    let mut out: Vec<IconRendition> = Vec::new();
    let mut k: usize = 0;
    assert(renditions_view(out@) =~= Seq::<(u32, Seq<u8>)>::empty());
    while k < sizes.len()
        invariant
            sizes@.len() == encoded@.len(),
            e == encoded_view(encoded@),
            k <= sizes@.len(),
            renditions_view(out@) == kept_renditions(sizes@.take(k as int), e.take(k as int)),
        decreases sizes@.len() - k,
    {
        assert(sizes@.take(k + 1).drop_last() =~= sizes@.take(k as int));
        assert(e.take(k + 1).drop_last() =~= e.take(k as int));
        assert(sizes@.take(k + 1).last() == sizes@[k as int]);
        assert(e.take(k + 1).last() == e[k as int]);
        match &encoded[k] {
            Some(png) => {
                let ghost before = out@;
                let item = IconRendition { size: sizes[k], png: copy_bytes(png) };
                out.push(item);
                assert(renditions_view(out@) =~= renditions_view(before).push((sizes@[k as int], png@)));
            },
            None => {},
        }
        k = k + 1;
    }
    assert(sizes@.take(k as int) =~= sizes@);
    assert(e.take(k as int) =~= e);
    out
}

/// The icon resized to each installed size (see [`icon_sizes`]) and encoded
/// as PNG: none when the icon does not decode, else the sizes whose
/// encoding succeeded, as [`keep_encoded_renditions`] keeps them, in
/// increasing order of size.
pub fn icon_renditions(icon: &[u8]) -> (r: Vec<IconRendition>)
    ensures
        exists|encoded: Seq<Option<Seq<u8>>>|
            encoded.len() == 7 && renditions_view(r@) == kept_renditions(
                installed_icon_sizes(),
                encoded,
            ),
        forall|i: int| 0 <= i < r@.len() ==> installed_icon_sizes().contains(#[trigger] r@[i].size),
        forall|i: int, j: int| 0 <= i < j < r@.len() ==> #[trigger] r@[i].size < #[trigger] r@[j].size,
{
    let sizes = icon_sizes();
    let ghost all = installed_icon_sizes();
    assert(forall|m: int, n: int| 0 <= m < n < 7 ==> all[m] < all[n]);
    let mut encoded: Vec<Option<Vec<u8>>> = Vec::new();
    match load_image(icon) {
        Some(image) => {
            let mut k: usize = 0;
            while k < sizes.len()
                invariant
                    sizes@ == all,
                    k <= sizes@.len(),
                    encoded@.len() == k,
                decreases sizes@.len() - k,
            {
                let resized = resize_square(&image, sizes[k]);
                encoded.push(encode_png(&resized));
                k = k + 1;
            }
        },
        None => {
            let mut k: usize = 0;
            while k < sizes.len()
                invariant
                    sizes@ == all,
                    k <= sizes@.len(),
                    encoded@.len() == k,
                decreases sizes@.len() - k,
            {
                encoded.push(None);
                k = k + 1;
            }
        },
    }
    let r = keep_encoded_renditions(&sizes, &encoded);
    proof {
        let e = encoded_view(encoded@);
        lemma_kept_sizes(all, e);
        let kept = kept_renditions(all, e);
        assert forall|i: int| 0 <= i < r@.len() implies all.contains(#[trigger] r@[i].size) by {
            assert(renditions_view(r@)[i] == kept[i]);
            assert(all.contains(kept[i].0));
        }
        assert forall|i: int, j: int| 0 <= i < j < r@.len() implies #[trigger] r@[i].size
            < #[trigger] r@[j].size by {
            assert(renditions_view(r@)[i] == kept[i]);
            assert(renditions_view(r@)[j] == kept[j]);
            assert(kept[i].0 < kept[j].0);
        }
    }
    r
}

/// The text of the desktop entry before the executable path.
pub open spec fn entry_head() -> Seq<char> {
    "[Desktop Entry]\nName=MD Editor\nComment=Native desktop markdown workspace\nExec="@
}

/// The text between the executable path and the icon path.
pub open spec fn entry_middle() -> Seq<char> {
    " %F\nIcon="@
}

/// The text after the icon path.
pub open spec fn entry_tail() -> Seq<char> {
    "\nTerminal=false\nType=Application\nMimeType=text/markdown;application/pdf;\nCategories=Office;WordProcessor;Utility;\nStartupWMClass=md-editor\n"@
}

/// The `.desktop` file that registers the editor for markdown and PDF files:
/// the executable (called with the files to open) and the icon by absolute
/// path.
pub fn desktop_entry_contents(exe_path: &str, icon_path: &str) -> (text: String)
    ensures
        text@ == entry_head() + exe_path@ + entry_middle() + icon_path@ + entry_tail(),
{
    let mut out = chars_of(
        "[Desktop Entry]\nName=MD Editor\nComment=Native desktop markdown workspace\nExec=",
    );
    extend_chars(&mut out, &chars_of(exe_path));
    extend_chars(&mut out, &chars_of(" %F\nIcon="));
    extend_chars(&mut out, &chars_of(icon_path));
    extend_chars(
        &mut out,
        &chars_of(
            "\nTerminal=false\nType=Application\nMimeType=text/markdown;application/pdf;\nCategories=Office;WordProcessor;Utility;\nStartupWMClass=md-editor\n",
        ),
    );
    string_of(&out)
}

} // verus!
