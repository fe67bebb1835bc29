//! Image files: what kind they are, and what is in them.
use vstd::prelude::*;
use crate::encoding;
use crate::messages;
use crate::raster;
use crate::text;
use crate::raster::RgbaImage;

verus! {

/// A text in lower case.
pub uninterp spec fn lowercased(s: Seq<char>) -> Seq<char>;

/// A Latin letter in lower case; any other character as it is.
pub open spec fn lower(c: char) -> char {
    if 'A' <= c && c <= 'Z' {
        (c as int + 32) as char
    } else {
        c
    }
}

/// A text with its Latin letters in lower case.
pub open spec fn lowered(s: Seq<char>) -> Seq<char> {
    Seq::new(s.len(), |i: int| lower(s[i]))
}

/// A text in lower case.
///
/// Stands for `str::to_lowercase` of the standard library. What it makes of a
/// text has a name; of a text in ASCII it is told: the letters are lowered and
/// all else stays.
#[verifier::external_body]
fn to_lowercase(s: &str) -> (r: String)
    ensures
        r@ == lowercased(s@),
        vstd::utf8::is_ascii_chars(s@) ==> r@ == lowered(s@),
{
    s.to_lowercase()
}

/// A text in lower case, told where it is in ASCII.
pub open spec fn lower_case(s: Seq<char>) -> Seq<char> {
    if vstd::utf8::is_ascii_chars(s) {
        lowered(s)
    } else {
        lowercased(s)
    }
}

/// The slash parts the names in a path; on some systems the backslash does too.
pub open spec fn separator(c: char, backslash: bool) -> bool {
    c == '/' || (backslash && c == '\\')
}

/// What stands behind the last separator of a path.
pub open spec fn tail(path: Seq<char>, backslash: bool) -> Seq<char>
    decreases path.len(),
{
    if path.len() == 0 || separator(path.last(), backslash) {
        Seq::empty()
    } else {
        tail(path.drop_last(), backslash).push(path.last())
    }
}

/// The last name in a path. Separators at the end do not count, nor does a dot
/// that stands alone between them.
pub open spec fn last_name(path: Seq<char>, backslash: bool) -> Option<Seq<char>>
    decreases path.len(),
{
    if path.len() == 0 {
        None
    } else if separator(path.last(), backslash) || tail(path, backslash) == "."@ {
        last_name(path.drop_last(), backslash)
    } else {
        Some(tail(path, backslash))
    }
}

/// How many separators are in a text, backslashes among them.
pub open spec fn separators(s: Seq<char>) -> nat
    decreases s.len(),
{
    if s.len() == 0 {
        0
    } else {
        separators(s.drop_last()) + if separator(s.last(), true) {
            1nat
        } else {
            0nat
        }
    }
}

/// What stands behind the last dot of a text, and whether there is a dot.
pub open spec fn after_dot(name: Seq<char>) -> Option<Seq<char>>
    decreases name.len(),
{
    if name.len() == 0 {
        None
    } else if name.last() == '.' {
        Some(Seq::empty())
    } else {
        match after_dot(name.drop_last()) {
            Some(s) => Some(s.push(name.last())),
            None => None,
        }
    }
}

/// The extension of a file's name: what stands behind its last dot. A name
/// without a dot has none, nor has one whose only dot comes first.
pub open spec fn suffix(name: Seq<char>) -> Option<Seq<char>> {
    match after_dot(name) {
        Some(s) => if s.len() + 1 == name.len() || name == ".."@ {
            None
        } else {
            Some(s)
        },
        None => None,
    }
}

/// The extension of the last name in a path.
pub open spec fn name_suffix(path: Seq<char>, backslash: bool) -> Option<Seq<char>> {
    match last_name(path, backslash) {
        Some(name) => suffix(name),
        None => None,
    }
}

/// The path begins with two separators, and so, on some systems, with the name
/// of a server or a device.
pub open spec fn doubled(path: Seq<char>) -> bool {
    path.len() >= 2 && separator(path[0], true) && separator(path[1], true)
}

/// The path is one that some systems take as it stands.
pub open spec fn verbatim(path: Seq<char>) -> bool {
    doubled(path) && path.len() >= 3 && path[2] == '?'
}

/// The path begins with what some systems take for a drive.
pub open spec fn on_drive(path: Seq<char>) -> bool {
    path.len() >= 2 && path[1] == ':'
}

/// Every system finds the same extension: what stands behind the last separator
/// of any kind has a dot that does not come first, and cannot be the name of a
/// drive, a server, a share or a device.
pub open spec fn settled(path: Seq<char>) -> bool {
    let name = tail(path, true);
    &&& !verbatim(path)
    &&& doubled(path) ==> separators(path.skip(3)) >= 2
    &&& !name.contains(':')
    &&& suffix(name) is Some
}

/// `extension` is one that the path has. Where the systems differ it is that of
/// the last name as the slash parts it, as either separator does, or as either
/// does behind a drive; or there is none, where the name belongs to a server or
/// a device. Of a path that is taken as it stands nothing is said.
pub open spec fn has_extension(path: Seq<char>, extension: Option<Seq<char>>) -> bool {
    if settled(path) {
        extension == suffix(tail(path, true))
    } else {
        ||| verbatim(path)
        ||| extension == name_suffix(path, false)
        ||| extension == name_suffix(path, true)
        ||| on_drive(path) && extension == name_suffix(path.skip(2), true)
        ||| doubled(path) && extension is None
    }
}

/// The extension of a path.
///
/// Stands for `std::path::Path::extension` on Unix and Windows, whose text is
/// that of the path. Where the two agree on the path's last name the extension
/// is told; where they do not it is one of those that they find. Left unsaid is
/// the extension of a path that Windows takes as it stands.
#[verifier::external_body]
fn extension(path: &str) -> (r: Option<String>)
    ensures
        has_extension(path@, text::told(r)),
{
    std::path::Path::new(path).extension().and_then(|e| e.to_str()).map(|e| e.to_string())
}

/// The kind of file that an extension tells; `png` where there is none.
pub open spec fn kind(extension: Option<Seq<char>>) -> Seq<char> {
    match extension {
        Some(e) => lower_case(e),
        None => "png"@,
    }
}

/// The kind of file that an extension tells; `png` where there is none.
pub fn file_kind(extension: Option<String>) -> (r: String)
    ensures
        r@ == kind(text::told(extension)),
{
    match extension {
        Some(e) => to_lowercase(e.as_str()),
        None => "png".to_owned(),
    }
}

/// The media type of a kind of file. What is not known passes for PNG.
pub open spec fn media_type_for(kind: Seq<char>) -> Seq<char> {
    if kind == "jpg"@ || kind == "jpeg"@ {
        "image/jpeg"@
    } else if kind == "gif"@ {
        "image/gif"@
    } else if kind == "webp"@ {
        "image/webp"@
    } else {
        "image/png"@
    }
}

/// The media type of a kind of file. What is not known passes for PNG.
pub fn media_type_of(kind: &str) -> (r: String)
    ensures
        r@ == media_type_for(kind@),
{
    if text::same_text(kind, "jpg") || text::same_text(kind, "jpeg") {
        "image/jpeg".to_owned()
    } else if text::same_text(kind, "gif") {
        "image/gif".to_owned()
    } else if text::same_text(kind, "webp") {
        "image/webp".to_owned()
    } else {
        "image/png".to_owned()
    }
}

/// The media type of the file at a path, by its extension.
pub fn media_type(path: &str) -> (r: String)
    ensures
        exists|e: Option<Seq<char>>|
            #[trigger] has_extension(path@, e) && r@ == media_type_for(kind(e)),
        settled(path@) ==> r@ == media_type_for(kind(suffix(tail(path@, true)))),
{
    let e = extension(path);
    let ghost told = text::told(e);
    let known = file_kind(e);
    assert(has_extension(path@, told));
    media_type_of(known.as_str())
}

/// Whether a file of this kind is written as JPEG.
pub open spec fn jpeg_kind(kind: Seq<char>) -> bool {
    kind == "jpg"@ || kind == "jpeg"@
}

/// Whether the file at a path is written as JPEG, by its extension.
pub fn saves_as_jpeg(path: &str) -> (r: bool)
    ensures
        exists|e: Option<Seq<char>>|
            #[trigger] has_extension(path@, e) && r == jpeg_kind(kind(e)),
        settled(path@) ==> r == jpeg_kind(kind(suffix(tail(path@, true)))),
{
    let e = extension(path);
    let ghost told = text::told(e);
    let known = file_kind(e);
    assert(has_extension(path@, told));
    is_jpeg(known.as_str())
}

/// Whether a file of this kind is written as JPEG.
pub fn is_jpeg(kind: &str) -> (r: bool)
    ensures
        r == jpeg_kind(kind@),
{
    text::same_text(kind, "jpg") || text::same_text(kind, "jpeg")
}

/// The colours of an image without its alpha bytes.
pub open spec fn colours(img: RgbaImage) -> Seq<u8> {
    Seq::new(
        (img.width * img.height * 3) as nat,
        |i: int| img.data@[i / 3 * 4 + i % 3],
    )
}

/// The JPEG file of an image, of which the alpha bytes are dropped. There is
/// none where a side does not fit in 16 bits.
pub fn jpeg_of(img: &RgbaImage, quality: u8) -> (r: Result<Vec<u8>, String>)
    requires
        img.valid(),
    ensures
        match r {
            Ok(file) => {
                &&& img.width <= 0xffff && img.height <= 0xffff
                &&& file@ == raster::jpeg_file(colours(*img), img.width, img.height, quality)
            },
            Err(e) => {
                &&& img.width > 0xffff || img.height > 0xffff
                &&& e@ == messages::because(
                    "JPEG encode failed"@,
                    "The Image's dimensions are either too small or too large"@,
                )
            },
        },
{
    let plain = raster::drop_alpha(img);
    proof {
        lemma_colours(*img, plain);
    }
    messages::explained(raster::encode_jpeg(&plain, quality), "JPEG encode failed")
}

proof fn lemma_colours(img: RgbaImage, plain: raster::RgbImage)
    requires
        img.valid(),
        plain.valid(),
        plain.width == img.width,
        plain.height == img.height,
        forall|x: int, y: int, c: int|
            0 <= x < plain.width && 0 <= y < plain.height && 0 <= c < 3 ==> #[trigger] plain.byte(
                x,
                y,
                c,
            ) == img.byte(x, y, c),
    ensures
        plain.data@ == colours(img),
{
    let w = img.width as int;
    let h = img.height as int;
    assert forall|i: int| 0 <= i < plain.data@.len() implies plain.data@[i] == colours(img)[i] by {
        let p = i / 3;
        let c = i % 3;
        assert(0 <= p < w * h) by (nonlinear_arith)
            requires
                p == i / 3,
                0 <= i < w * h * 3,
        ;
        let y = p / w;
        let x = p % w;
        assert(w > 0) by (nonlinear_arith)
            requires
                0 <= p < w * h,
                w >= 0,
        ;
        vstd::arithmetic::div_mod::lemma_fundamental_div_mod(p, w);
        assert(0 <= x < w && 0 <= y < h && y * w + x == p) by (nonlinear_arith)
            requires
                w > 0,
                0 <= p < w * h,
                p == w * y + x,
                0 <= x < w,
                x == p % w,
                y == p / w,
        ;
        assert(plain.byte(x, y, c) == img.byte(x, y, c));
    }
    assert(plain.data@ =~= colours(img));
}

/// What is read from an image file, as text.
pub fn image_to_base64(read: Result<Vec<u8>, String>) -> (r: Result<String, String>)
    requires
        read matches Ok(bytes) ==> encoding::encoded_length(bytes@.len() as int) <= isize::MAX,
    ensures
        match (read, r) {
            (Ok(bytes), Ok(s)) => s@ == encoding::encoded(bytes@),
            (Err(why), Err(e)) => e@ == messages::because("Failed to read image"@, why@),
            _ => false,
        },
{
    match read {
        Ok(bytes) => Ok(encoding::encode(&bytes)),
        Err(why) => Err(messages::failed("Failed to read image", why.as_str())),
    }
}

/// A path has one extension only, that of its last name, where nothing in it
/// stands for a separator, a drive or a server on some systems and not on
/// others.
pub proof fn a_portable_path_has_one_extension(path: Seq<char>, extension: Option<Seq<char>>)
    requires
        !path.contains('\\'),
        !on_drive(path),
        !doubled(path),
        has_extension(path, extension),
    ensures
        extension == name_suffix(path, false),
{
    lemma_last_name(path);
    if settled(path) {
        let name = tail(path, true);
        reveal_strlit(".");
        if path.len() > 0 && !separator(path.last(), true) && name == "."@ {
            an_extension_holds_no_dot(name);
        }
    }
}

/// Without backslashes it is all the same whether they part names.
proof fn lemma_tail(path: Seq<char>)
    requires
        !path.contains('\\'),
    ensures
        tail(path, true) == tail(path, false),
    decreases path.len(),
{
    if path.len() > 0 {
        assert(path[path.len() - 1] == path.last());
        lemma_without(path);
        lemma_tail(path.drop_last());
    }
}

proof fn lemma_last_name(path: Seq<char>)
    requires
        !path.contains('\\'),
    ensures
        tail(path, true) == tail(path, false),
        last_name(path, true) == last_name(path, false),
    decreases path.len(),
{
    lemma_tail(path);
    if path.len() > 0 {
        assert(path[path.len() - 1] == path.last());
        lemma_without(path);
        lemma_last_name(path.drop_last());
    }
}

proof fn lemma_without(path: Seq<char>)
    requires
        !path.contains('\\'),
        path.len() > 0,
    ensures
        !path.drop_last().contains('\\'),
{
    if path.drop_last().contains('\\') {
        let i = choose|i: int| 0 <= i < path.len() - 1 && path.drop_last()[i] == '\\';
        assert(path[i] == '\\');
    }
}

/// An extension is what stands behind the last dot: it holds none itself.
pub proof fn an_extension_holds_no_dot(name: Seq<char>)
    ensures
        after_dot(name) matches Some(s) ==> {
            &&& s.len() < name.len()
            &&& s == name.subrange(name.len() - s.len(), name.len() as int)
            &&& name[name.len() - s.len() - 1] == '.'
            &&& !s.contains('.')
        },
        after_dot(name) is None ==> !name.contains('.'),
    decreases name.len(),
{
    if name.len() > 0 && name.last() != '.' {
        let before = name.drop_last();
        an_extension_holds_no_dot(before);
        match after_dot(before) {
            Some(s) => {
                let e = s.push(name.last());
                assert(e =~= name.subrange(name.len() - e.len(), name.len() as int));
                assert(!e.contains('.')) by {
                    if e.contains('.') {
                        let i = choose|i: int| 0 <= i < e.len() && e[i] == '.';
                        if i < s.len() {
                            assert(s[i] == '.');
                        }
                    }
                }
            },
            None => {
                if name.contains('.') {
                    let i = choose|i: int| 0 <= i < name.len() && name[i] == '.';
                    assert(before[i] == '.');
                }
            },
        }
    } else if name.len() > 0 {
        assert(name.subrange(name.len() as int, name.len() as int) =~= Seq::<char>::empty());
    }
}

/// The media type goes by the extension, in whatever case its Latin letters are:
/// `jpg` and `jpeg`, `gif` and `webp` have their own, and everything else passes
/// for PNG, as does a file without an extension. A file is written as JPEG just
/// where its media type is that of JPEG.
pub proof fn a_media_type_goes_by_the_extension(a: Seq<char>, b: Seq<char>)
    requires
        a.len() == b.len(),
        forall|i: int| 0 <= i < a.len() ==> lower(#[trigger] a[i]) == lower(b[i]),
        vstd::utf8::is_ascii_chars(a),
        vstd::utf8::is_ascii_chars(b),
    ensures
        media_type_for(kind(Some(a))) == media_type_for(kind(Some(b))),
        jpeg_kind(kind(Some(a))) <==> media_type_for(kind(Some(a))) == "image/jpeg"@,
        b == seq!['j', 'p', 'g'] || b == seq!['j', 'p', 'e', 'g'] ==> media_type_for(kind(Some(a)))
            == "image/jpeg"@,
        b == seq!['g', 'i', 'f'] ==> media_type_for(kind(Some(a))) == "image/gif"@,
        b == seq!['w', 'e', 'b', 'p'] ==> media_type_for(kind(Some(a))) == "image/webp"@,
        media_type_for(kind(None)) == "image/png"@,
        b != seq!['j', 'p', 'g'] && b != seq!['j', 'p', 'e', 'g'] && b != seq!['g', 'i', 'f'] && b
            != seq!['w', 'e', 'b', 'p'] && lowered(b) == b ==> media_type_for(kind(Some(a)))
            == "image/png"@,
{
    reveal_strlit("jpg");
    reveal_strlit("jpeg");
    reveal_strlit("gif");
    reveal_strlit("webp");
    reveal_strlit("png");
    reveal_strlit("image/jpeg");
    reveal_strlit("image/png");
    reveal_strlit("image/gif");
    reveal_strlit("image/webp");
    assert("jpg"@ =~= seq!['j', 'p', 'g']);
    assert("jpeg"@ =~= seq!['j', 'p', 'e', 'g']);
    assert("gif"@ =~= seq!['g', 'i', 'f']);
    assert("webp"@ =~= seq!['w', 'e', 'b', 'p']);
    assert("png"@ =~= seq!['p', 'n', 'g']);
    assert("png"@[0] == 'p' && "jpg"@[0] == 'j' && "gif"@[0] == 'g');
    assert("image/jpeg"@.len() == 10 && "image/png"@.len() == 9 && "image/gif"@.len() == 9
        && "image/webp"@.len() == 10);
    assert("image/jpeg"@[6] == 'j' && "image/webp"@[6] == 'w');
    assert(lowered(a) =~= lowered(b));
    assert(lowered(seq!['j', 'p', 'g']) =~= seq!['j', 'p', 'g']);
    assert(lowered(seq!['j', 'p', 'e', 'g']) =~= seq!['j', 'p', 'e', 'g']);
    assert(lowered(seq!['g', 'i', 'f']) =~= seq!['g', 'i', 'f']);
    assert(lowered(seq!['w', 'e', 'b', 'p']) =~= seq!['w', 'e', 'b', 'p']);
}

/// A JPEG file is made of the red, green and blue of every pixel, row after row.
pub proof fn the_colours_of_every_pixel_are_kept(img: RgbaImage, x: int, y: int, c: int)
    requires
        img.valid(),
        0 <= x < img.width,
        0 <= y < img.height,
        0 <= c < 3,
    ensures
        colours(img).len() == img.width * img.height * 3,
        colours(img)[(y * img.width + x) * 3 + c] == img.data@[(y * img.width + x) * 4 + c],
{
    let p = y * img.width + x;
    let w = img.width as int;
    let h = img.height as int;
    assert(0 <= p < w * h) by (nonlinear_arith)
        requires
            0 <= x < w,
            0 <= y < h,
            p == y * w + x,
    ;
    assert((p * 3 + c) / 3 == p && (p * 3 + c) % 3 == c);
}

/// A file `stem.extension` in a folder has that extension, whichever separator
/// comes before it.
pub proof fn a_file_has_the_extension_behind_its_last_dot(
    folder: Seq<char>,
    separator: char,
    stem: Seq<char>,
    extension: Seq<char>,
    found: Option<Seq<char>>,
)
    requires
        separator == '/' || separator == '\\',
        stem.len() > 0,
        extension.len() > 0,
        !extension.contains('.'),
        forall|i: int|
            0 <= i < stem.len() ==> #[trigger] stem[i] != '/' && stem[i] != '\\' && stem[i] != ':',
        forall|i: int|
            0 <= i < extension.len() ==> #[trigger] extension[i] != '/' && extension[i] != '\\'
                && extension[i] != ':',
        !doubled(folder + seq![separator] + stem + seq!['.'] + extension),
        has_extension(folder + seq![separator] + stem + seq!['.'] + extension, found),
    ensures
        found == Some(extension),
{
    let path = folder + seq![separator] + stem + seq!['.'] + extension;
    let name = stem + seq!['.'] + extension;
    lemma_tail_is(folder + seq![separator], name);
    assert(folder + seq![separator] + name =~= path);
    lemma_after_dot_is(stem, extension);
    reveal_strlit("..");
    assert(name.len() > 2 || name[0] != '.' || name[1] != '.') by {
        if name.len() == 2 {
            assert(false);
        }
    }
    assert(".."@.len() == 2);
    assert(!name.contains(':')) by {
        if name.contains(':') {
            let i = choose|i: int| 0 <= i < name.len() && name[i] == ':';
            if i < stem.len() {
                assert(stem[i] == ':');
            } else if i > stem.len() {
                assert(extension[i - stem.len() - 1] == ':');
            }
        }
    }
    assert(settled(path));
}

proof fn lemma_tail_is(before: Seq<char>, name: Seq<char>)
    requires
        before.len() > 0,
        before.last() == '/' || before.last() == '\\',
        forall|i: int| 0 <= i < name.len() ==> #[trigger] name[i] != '/' && name[i] != '\\',
    ensures
        tail(before + name, true) == name,
    decreases name.len(),
{
    let path = before + name;
    if name.len() == 0 {
        assert(path =~= before);
        assert(tail(path, true) =~= name);
    } else {
        let shorter = name.drop_last();
        assert forall|i: int| 0 <= i < shorter.len() implies #[trigger] shorter[i] != '/'
            && shorter[i] != '\\' by {
            assert(name[i] != '/' && name[i] != '\\');
        }
        lemma_tail_is(before, shorter);
        assert(path.drop_last() =~= before + shorter);
        assert(path.last() == name[name.len() - 1]);
        assert(shorter.push(name.last()) =~= name);
    }
}

proof fn lemma_after_dot_is(stem: Seq<char>, extension: Seq<char>)
    requires
        !extension.contains('.'),
    ensures
        after_dot(stem + seq!['.'] + extension) == Some(extension),
    decreases extension.len(),
{
    let name = stem + seq!['.'] + extension;
    if extension.len() == 0 {
        assert(name.last() == '.');
        assert(extension =~= Seq::<char>::empty());
    } else {
        let shorter = extension.drop_last();
        assert(!shorter.contains('.')) by {
            if shorter.contains('.') {
                let i = choose|i: int| 0 <= i < shorter.len() && shorter[i] == '.';
                assert(extension[i] == '.');
            }
        }
        lemma_after_dot_is(stem, shorter);
        assert(name.drop_last() =~= stem + seq!['.'] + shorter);
        assert(name.last() == extension[extension.len() - 1]);
        assert(name.last() != '.');
        assert(shorter.push(extension.last()) =~= extension);
    }
}

} // verus!
