use lsp_types::Url;
use vstd::prelude::*;
use vstd::string::*;
use vstd::utf8::*;

use crate::parse_code::texts;
use crate::syntax::text_of;
use crate::text::same_text;

verus! {

/// The address that a text stands for, written in full.
pub uninterp spec fn parsed_url(text: Seq<char>) -> Option<Seq<char>>;

/// Whether an address has the scheme of files where its text has it, and a slash at its end where
/// its text has both.
pub open spec fn keeps_ends(text: Seq<char>, url: Seq<char>) -> bool {
    "file://"@.is_prefix_of(text) ==> {
        &&& "file://"@.is_prefix_of(url)
        &&& text.last() == '/' ==> url.last() == '/'
    }
}

/// Reads a text as an address with `url::Url::parse`, which `lsp_types` hands on as
/// `lsp_types::Url`.
///
/// Believed of it: what comes out, and whether anything does, depends on the text alone. The
/// address of a text with the scheme of files has that scheme, and a slash at its end where the
/// text has one.
#[verifier::external_body]
pub(crate) fn parse_url(text: &str) -> (url: Option<String>)
    ensures
        text_of(url) == parsed_url(text@),
        url is Some ==> keeps_ends(text@, url->0@),
{
    Url::parse(text).ok().map(String::from)
}

/// The address that a path stands for when read from another address.
pub uninterp spec fn joined_url(base: Seq<char>, path: Seq<char>) -> Option<Seq<char>>;

/// Reads a path from an address with `url::Url::parse` and `url::Url::join`.
///
/// Believed of them: what comes out, and whether anything does, depends on the two texts alone.
#[verifier::external_body]
pub(crate) fn join_url(base: &str, path: &str) -> (url: Option<String>)
    ensures
        text_of(url) == joined_url(base@, path@),
{
    Url::parse(base).ok()?.join(path).ok().map(String::from)
}

/// The place of the first character of an address, from `k` on, that starts its query or its
/// fragment.
pub open spec fn query_start(address: Seq<char>, k: int) -> int
    decreases address.len() - k,
{
    if k < 0 || k >= address.len() || address[k] == '?' || address[k] == '#' {
        k
    } else {
        query_start(address, k + 1)
    }
}

/// What stands in front of the query and the fragment of an address.
pub open spec fn without_query(address: Seq<char>) -> Seq<char> {
    address.take(query_start(address, 0))
}

/// Whether a name is that of a drive: a letter and a colon, which may be escaped.
pub open spec fn drive_name(name: Seq<char>) -> bool {
    &&& name.len() > 0
    &&& ('a' <= name[0] && name[0] <= 'z') || ('A' <= name[0] && name[0] <= 'Z')
    &&& (name.len() == 2 && name[1] == ':') || (name.len() == 4 && name[1] == '%' && name[2] == '3'
        && (name[3] == 'A' || name[3] == 'a'))
}

/// Whether the path of an address is the name of a drive alone. Where the scheme is not that of
/// files, it may be more.
pub open spec fn lone_drive(address: Seq<char>) -> bool {
    let head = without_query(address);
    let name = last_component(head);
    drive_name(name) && ("file://"@.is_prefix_of(head) ==> head.len() == name.len() + 8)
}

/// The place of the first slash of an address from `k` on.
pub open spec fn next_slash(address: Seq<char>, k: int) -> int
    decreases address.len() - k,
{
    if k < 0 || k >= address.len() || address[k] == '/' {
        k
    } else {
        next_slash(address, k + 1)
    }
}

/// Whether an escape of a separator of a path starts at a place of an address.
pub open spec fn escaped_separator(address: Seq<char>, k: int) -> bool {
    &&& 0 <= k && k + 2 < address.len() && address[k] == '%'
    &&& (address[k + 1] == '2' && (address[k + 2] == 'F' || address[k + 2] == 'f')) || (address[k
        + 1] == '5' && (address[k + 2] == 'C' || address[k + 2] == 'c'))
}

/// Whether an address names a server and nothing that the server shares.
pub open spec fn shareless(address: Seq<char>) -> bool {
    &&& "file://"@.is_prefix_of(address)
    &&& address.len() > 7
    &&& address[7] != '/'
    &&& {
        let share = next_slash(address, 7) + 1;
        ||| share >= address.len()
        ||| address[share] == '/'
        ||| address[share] == '?'
        ||| address[share] == '#'
        ||| escaped_separator(address, share)
    }
}

/// Whether an address can be asked for its path. Of a drive alone, or a server alone, the path
/// would not be absolute on all operating systems, and `url::Url::to_file_path` may panic then.
pub open spec fn answerable(address: Seq<char>) -> bool {
    !lone_drive(address) && !shareless(address)
}

/// The address that is asked for its path in place of another: a drive alone gets a slash behind
/// it.
pub open spec fn asked_address(address: Seq<char>) -> Seq<char> {
    if lone_drive(address) {
        without_query(address).push('/')
    } else {
        address
    }
}

/// The address that is asked for the path of what is at another, if one can be asked.
pub open spec fn asked(url: Seq<char>) -> Option<Seq<char>> {
    match parsed_url(url) {
        Some(address) => if shareless(address) {
            None
        } else if lone_drive(address) {
            match parsed_url(asked_address(address)) {
                Some(again) => if answerable(again) {
                    Some(again)
                } else {
                    None
                },
                None => None,
            }
        } else {
            Some(address)
        },
        None => None,
    }
}

/// The value of a hexadecimal digit.
pub open spec fn hex_value(byte: u8) -> Option<int> {
    if 0x30 <= byte <= 0x39 {
        Some(byte - 0x30)
    } else if 0x41 <= byte <= 0x46 {
        Some(byte - 0x41 + 10)
    } else if 0x61 <= byte <= 0x66 {
        Some(byte - 0x61 + 10)
    } else {
        None
    }
}

/// The bytes that a text with escapes stands for: a percent sign and two hexadecimal digits stand
/// for one byte.
pub open spec fn unescaped(bytes: Seq<u8>) -> Seq<u8>
    decreases bytes.len(),
{
    if bytes.len() == 0 {
        Seq::empty()
    } else if bytes.len() >= 3 && bytes[0] == 0x25 && hex_value(bytes[1]) is Some && hex_value(
        bytes[2],
    ) is Some {
        seq![(hex_value(bytes[1])->0 * 16 + hex_value(bytes[2])->0) as u8] + unescaped(
            bytes.skip(3),
        )
    } else {
        seq![bytes[0]] + unescaped(bytes.skip(1))
    }
}

/// A text with backslashes in place of its slashes.
pub open spec fn backslashed(text: Seq<char>) -> Seq<char> {
    text.map_values(
        |c: char|
            if c == '/' {
                '\\'
            } else {
                c
            },
    )
}

/// Whether a byte is that of a letter without accents.
pub open spec fn letter_byte(byte: u8) -> bool {
    0x41 <= byte <= 0x5A || 0x61 <= byte <= 0x7A
}

/// A path with a slash behind it if it ends like a drive.
pub open spec fn with_drive_slash(bytes: Seq<u8>) -> Seq<u8> {
    if bytes.len() > 2 && letter_byte(bytes[bytes.len() - 2]) && (bytes.last() == 0x3A
        || bytes.last() == 0x7C) {
        bytes.push(0x2F)
    } else {
        bytes
    }
}

/// What a path with escapes stands for where paths are written with slashes.
pub open spec fn slash_path(path: Seq<char>) -> Seq<u8> {
    with_drive_slash(unescaped(encode_utf8(path)))
}

/// What a path with escapes stands for where paths are written with backslashes.
pub open spec fn backslash_path(path: Seq<char>) -> Seq<u8> {
    unescaped(encode_utf8(backslashed(path)))
}

/// Whether an address is one of a file, on no server.
pub open spec fn local_file(head: Seq<char>) -> bool {
    "file://"@.is_prefix_of(head) && head.len() > 7 && head[7] == '/'
}

/// Whether the path of an address of a file starts with a drive and goes on behind it.
pub open spec fn on_drive(head: Seq<char>) -> bool {
    &&& local_file(head)
    &&& next_slash(head, 8) < head.len()
    &&& drive_name(head.subrange(8, next_slash(head, 8)))
}

/// Whether bytes can be those of the path that starts at a place of an address, as the operating
/// systems write it: with slashes, with the scheme in front, or with a drive and backslashes.
pub open spec fn path_from(head: Seq<char>, k: int, bytes: Seq<u8>) -> bool {
    ||| bytes == slash_path(head.skip(k))
    ||| bytes == encode_utf8("file:"@) + slash_path(head.skip(k))
    ||| bytes == backslash_path(head.skip(k + 1)) && (local_file(head) ==> on_drive(head))
}

/// Whether a path can be that of an address. On a server, it starts with backslashes. Where the
/// scheme is not that of files, it starts at one of the slashes.
pub open spec fn path_fits(address: Seq<char>, path: Seq<char>) -> bool {
    let head = without_query(address);
    let bytes = encode_utf8(path);
    if local_file(head) {
        path_from(head, 7, bytes)
    } else if "file://"@.is_prefix_of(head) {
        bytes == backslash_path(head.skip(5))
    } else {
        exists|k: int|
            0 <= k < head.len() && head[k] == '/' && #[trigger] path_from(head, k, bytes)
    }
}

/// Whether an address has a path, and one that is a text, on all operating systems: it is that of
/// a file on a drive.
pub open spec fn has_path(address: Seq<char>) -> bool {
    let head = without_query(address);
    on_drive(head) && valid_utf8(unescaped(encode_utf8(head.skip(7))))
}

/// Whether the path that starts at a place of an address is not a text without its escapes.
pub open spec fn textless_from(head: Seq<char>, k: int) -> bool {
    !valid_utf8(unescaped(encode_utf8(head.skip(k))))
}

/// Whether an address can have a path that is not a text. Where the scheme is not that of files,
/// the path starts at one of the slashes.
pub open spec fn textless(address: Seq<char>) -> bool {
    let head = without_query(address);
    if "file://"@.is_prefix_of(head) {
        local_file(head) && textless_from(head, 7)
    } else {
        exists|k: int| 0 <= k < head.len() && head[k] == '/' && #[trigger] textless_from(head, k)
    }
}

/// Whether a path, if there is one, can be that of an address.
pub open spec fn fits_address(url: Seq<char>, path: Option<Seq<char>>) -> bool {
    match (asked(url), path) {
        (Some(address), Some(path)) => path_fits(address, path),
        (Some(address), None) => !has_path(address),
        (None, Some(path)) => false,
        (None, None) => true,
    }
}

/// The path of the file at an address, with `url::Url::parse` and `url::Url::to_file_path`. `None`
/// stands for no path, and `Some(None)` for a path that is not a text.
///
/// Believed of them: what is not an address has no path, a path is what the address says, without
/// its escapes, written as one of the operating systems writes it, and where it is not a text, its
/// bytes are not UTF-8. An address on a drive has a path on all of them, as long as there is memory
/// for it. Which others have one differs between operating systems.
#[verifier::external_body]
pub(crate) fn url_to_path(url: &str) -> (path: Option<Option<String>>)
    requires
        parsed_url(url@) is Some ==> answerable(parsed_url(url@)->0),
    ensures
        match (parsed_url(url@), path) {
            (None, path) => path is None,
            (Some(address), None) => !has_path(address),
            (Some(address), Some(None)) => textless(address),
            (Some(address), Some(Some(path))) => path_fits(address, path@),
        },
{
    let path = Url::parse(url).ok()?.to_file_path().ok()?;
    Some(path.into_os_string().into_string().ok())
}

/// Whether a byte of a component of a path stands for itself in an address.
pub open spec fn plain_byte(byte: u8) -> bool {
    &&& 0x20 < byte < 0x7F
    &&& byte != 0x22 && byte != 0x23 && byte != 0x25 && byte != 0x2F
    &&& byte != 0x3C && byte != 0x3E && byte != 0x3F
    &&& byte != 0x5C && byte != 0x60 && byte != 0x7B && byte != 0x7D
}

/// The hexadecimal digit of a value.
pub open spec fn hex_digit(value: int) -> char {
    if value < 10 {
        (0x30 + value) as u8 as char
    } else {
        (0x41 + value - 10) as u8 as char
    }
}

/// Bytes as they are written in an address: those that are not plain are escaped.
pub open spec fn escaped(bytes: Seq<u8>) -> Seq<char>
    decreases bytes.len(),
{
    if bytes.len() == 0 {
        Seq::empty()
    } else if plain_byte(bytes.last()) {
        escaped(bytes.drop_last()).push(bytes.last() as char)
    } else {
        escaped(bytes.drop_last()) + seq![
            '%',
            hex_digit(bytes.last() as int / 16),
            hex_digit(bytes.last() as int % 16),
        ]
    }
}

/// The components of a path as they are written in an address, each behind a slash.
pub open spec fn escaped_path(parts: Seq<Seq<char>>) -> Seq<char>
    decreases parts.len(),
{
    if parts.len() == 0 {
        Seq::empty()
    } else {
        escaped_path(parts.drop_last()).push('/') + escaped(encode_utf8(parts.last()))
    }
}

/// A text with slashes in place of its backslashes.
pub open spec fn forward_slashed(text: Seq<char>) -> Seq<char> {
    text.map_values(
        |c: char|
            if c == '\\' {
                '/'
            } else {
                c
            },
    )
}

/// Whether a path is absolute and all operating systems find the same components in it.
pub open spec fn rooted_path(path: Seq<char>) -> bool {
    &&& path.len() > 0 && path[0] == '/'
    &&& !(path.len() >= 2 && path[1] == '/')
    &&& !path.contains('\\')
}

/// Whether a path starts with a drive and a separator behind it.
pub open spec fn drive_path(path: Seq<char>) -> bool {
    path.len() >= 3 && drive_name(path.take(2)) && (path[2] == '\\' || path[2] == '/')
}

/// The components of a path behind its drive.
pub open spec fn drive_segments(path: Seq<char>) -> Seq<Seq<char>> {
    segments(forward_slashed(path.skip(2)))
}

/// Whether two letters are the same, or the second is the first as a capital.
pub open spec fn same_capital(a: char, b: char) -> bool {
    a == b || (a as u32 == b as u32 + 32 && 'A' <= b && b <= 'Z')
}

/// Whether an address, if there is one, can be that of a directory.
pub open spec fn fits_directory(path: Seq<char>, url: Option<Seq<char>>) -> bool {
    match url {
        None => true,
        Some(url) => {
            &&& "file://"@.is_prefix_of(url)
            &&& url.last() == '/'
            &&& path.len() > 0
            &&& path[0] == '/' || path[0] == '\\' || (path.len() > 1 && path[1] == ':')
            &&& rooted_path(path) ==> url == "file://"@ + escaped_path(segments(path)) + "/"@
            &&& drive_path(path) ==> exists|letter: char| #[trigger]
                same_capital(path[0], letter) && url == "file:///"@.push(letter).push(':')
                    + escaped_path(drive_segments(path)) + "/"@
        },
    }
}

/// The address of a directory, with `url::Url::from_directory_path`.
///
/// Believed of it: an address has the scheme of files and a slash at its end, and only absolute
/// paths have one. In between stand the components of the path, with those of their bytes escaped
/// that are not plain, behind the drive if there is one. Which paths are absolute differs between
/// operating systems, and how the name of a server is written is not claimed.
#[verifier::external_body]
pub(crate) fn directory_url(path: &str) -> (url: Option<String>)
    ensures
        fits_directory(path@, text_of(url)),
{
    Url::from_directory_path(path).ok().map(String::from)
}

/// The last component of a path with slashes: what follows the last slash.
pub open spec fn last_component(path: Seq<char>) -> Seq<char>
    decreases path.len(),
{
    if path.len() == 0 || path.last() == '/' {
        Seq::empty()
    } else {
        last_component(path.drop_last()).push(path.last())
    }
}

/// The place of the last of a character among the first `k` characters of a name.
pub open spec fn last_of(c: char, name: Seq<char>, k: int) -> Option<int>
    decreases k,
{
    if k <= 0 || k > name.len() {
        None
    } else if name[k - 1] == c {
        Some(k - 1)
    } else {
        last_of(c, name, k - 1)
    }
}

/// The end of the name of a file: what follows its last dot. A dot at the start does not count.
pub open spec fn name_extension(name: Seq<char>) -> Option<Seq<char>> {
    match last_of('.', name, name.len() as int) {
        Some(k) => if k == 0 {
            None
        } else {
            Some(name.skip(k + 1))
        },
        None => None,
    }
}

/// What follows the last escape of a name.
pub open spec fn unescaped_end(name: Seq<char>) -> Seq<char> {
    match last_of('%', name, name.len() as int) {
        Some(k) => if k + 3 <= name.len() {
            name.skip(k + 3)
        } else {
            Seq::empty()
        },
        None => name,
    }
}

/// Whether all operating systems read a name as one component of a path.
pub open spec fn plain_name(name: Seq<char>) -> bool {
    &&& !name.contains('/') && !name.contains('\\')
    &&& name != seq!['.'] && name != seq!['.', '.']
}

/// Whether an end of a name is one that the file at an address can have. Where the name is a text
/// without its escapes, it is the end of that, if there is a path. Else it is that of what follows
/// the escapes.
pub open spec fn fits_name(address: Seq<char>, extension: Option<Seq<char>>) -> bool {
    let names = segments(without_query(address));
    &&& extension is Some ==> !extension->0.contains('.')
    &&& names.len() > 0 ==> {
        let bytes = unescaped(encode_utf8(names.last()));
        let name = decode_utf8(bytes);
        let end = name_extension(unescaped_end(names.last()));
        if valid_utf8(bytes) {
            plain_name(name) ==> {
                &&& extension is None || extension == name_extension(name)
                &&& has_path(address) ==> extension == name_extension(name)
            }
        } else {
            end is Some ==> extension is None || extension == end
        }
    }
}

/// The end of the name of the file at an address, with `url::Url::parse`,
/// `url::Url::to_file_path` and `std::path::Path::extension`.
///
/// Believed of them: what is not an address has none. It is what follows the last dot of the name,
/// unless that dot is the first character; the name is the last component of the address without
/// its escapes. An address on a drive has a path on all operating systems, as long as there is
/// memory for it; which others have one differs between them, and without a path there is no end.
#[verifier::external_body]
fn address_extension(url: &str) -> (extension: Option<String>)
    requires
        parsed_url(url@) is Some ==> answerable(parsed_url(url@)->0),
    ensures
        match parsed_url(url@) {
            Some(address) => fits_name(address, text_of(extension)),
            None => extension is None,
        },
{
    let path = Url::parse(url).ok()?.to_file_path().ok()?;
    path.extension().and_then(|e| e.to_str()).map(str::to_owned)
}

/// The last component of a path with slashes.
pub(crate) fn last_part(path: &str) -> (name: &str)
    ensures
        name@ == last_component(path@),
{
    let n: usize = path.unicode_len();
    let mut from: usize = n;
    assert(path@.take(n as int) =~= path@);
    assert(path@.subrange(n as int, n as int) =~= Seq::empty());
    assert(last_component(path@.take(n as int)) + path@.subrange(n as int, n as int)
        =~= last_component(path@));
    while from > 0 && path.get_char(from - 1) != '/'
        invariant
            from <= n,
            n == path@.len(),
            last_component(path@) == last_component(path@.take(from as int)) + path@.subrange(
                from as int,
                n as int,
            ),
        decreases from,
    {
        let ghost head = path@.take(from as int);
        assert(head.drop_last() =~= path@.take(from - 1));
        assert(last_component(head) == last_component(head.drop_last()).push(head.last()));
        assert(last_component(head) + path@.subrange(from as int, n as int) =~= last_component(
            path@.take(from - 1),
        ) + path@.subrange(from - 1, n as int));
        from -= 1;
    }
    assert(last_component(path@.take(from as int)) =~= Seq::empty());
    assert(path@.subrange(from as int, n as int) =~= last_component(path@));
    path.substring_char(from, n)
}

/// What stands in front of the query and the fragment of an address.
pub(crate) fn cut_query(address: &str) -> (head: &str)
    ensures
        head@ == without_query(address@),
{
    let n: usize = address.unicode_len();
    let mut k: usize = 0;
    while k < n && address.get_char(k) != '?' && address.get_char(k) != '#'
        invariant
            k <= n,
            n == address@.len(),
            query_start(address@, 0) == query_start(address@, k as int),
        decreases n - k,
    {
        k += 1;
    }
    assert(address@.subrange(0, k as int) =~= address@.take(k as int));
    address.substring_char(0, k)
}

/// Whether the path of an address is the name of a drive alone.
fn is_lone_drive(address: &str) -> (r: bool)
    ensures
        r == lone_drive(address@),
{
    let head = cut_query(address);
    let name = last_part(head);
    let n: usize = name.unicode_len();
    if n != 2 && n != 4 {
        return false;
    }
    proof {
        lemma_last_component(head@);
    }
    if has_file_scheme(head) && head.unicode_len() - n != 8 {
        return false;
    }
    let letter: char = name.get_char(0);
    let second: char = name.get_char(1);
    if !('a' <= letter && letter <= 'z') && !('A' <= letter && letter <= 'Z') {
        false
    } else if n == 2 {
        second == ':'
    } else {
        let last: char = name.get_char(3);
        second == '%' && name.get_char(2) == '3' && (last == 'A' || last == 'a')
    }
}

/// Whether an address has the scheme of files.
fn has_file_scheme(address: &str) -> (r: bool)
    ensures
        r == "file://"@.is_prefix_of(address@),
{
    proof {
        reveal_strlit("file://");
    }
    if address.unicode_len() < 7 {
        return false;
    }
    let scheme = address.substring_char(0, 7);
    let r: bool = same_text(scheme, "file://");
    proof {
        if r {
            assert("file://"@ =~= address@.subrange(0, 7));
        } else if "file://"@.is_prefix_of(address@) {
            assert(scheme@ =~= "file://"@);
        }
    }
    r
}

/// Whether an address names a server and nothing that the server shares.
fn is_shareless(address: &str) -> (r: bool)
    ensures
        r == shareless(address@),
{
    proof {
        reveal_strlit("file://");
    }
    let n: usize = address.unicode_len();
    if n <= 7 {
        return false;
    }
    if !has_file_scheme(address) || address.get_char(7) == '/' {
        return false;
    }
    let mut k: usize = 7;
    while k < n && address.get_char(k) != '/'
        invariant
            7 <= k <= n,
            n == address@.len(),
            next_slash(address@, 7) == next_slash(address@, k as int),
        decreases n - k,
    {
        k += 1;
    }
    if k >= n - 1 {
        return true;
    }
    let first: char = address.get_char(k + 1);
    if first == '/' || first == '?' || first == '#' {
        return true;
    }
    if first != '%' || n - k < 4 {
        return false;
    }
    let (second, third) = (address.get_char(k + 2), address.get_char(k + 3));
    (second == '2' && (third == 'F' || third == 'f')) || (second == '5' && (third == 'C' || third
        == 'c'))
}

/// What to ask for the path of what is at an address.
pub(crate) struct Question {
    /// The address as it is asked.
    pub text: String,
    /// The address that the answer is for, written in full.
    pub address: String,
}

/// What to ask for the path of what is at an address, if it can be asked.
pub(crate) fn question_of(url: &str) -> (question: Option<Question>)
    ensures
        match question {
            Some(question) => {
                &&& asked(url@) is Some
                &&& parsed_url(question.text@) == asked(url@)
                &&& answerable(asked(url@)->0)
                &&& question.address@ == asked_address(parsed_url(url@)->0)
            },
            None => asked(url@) is None,
        },
{
    let address: String = parse_url(url)?;
    if is_shareless(address.as_str()) {
        return None;
    }
    if !is_lone_drive(address.as_str()) {
        return Some(Question { text: url.to_owned(), address });
    }
    let mut asked: String = cut_query(address.as_str()).to_owned();
    asked.append("/");
    proof {
        reveal_strlit("/");
        assert(asked@ =~= asked_address(address@));
    }
    let again: String = parse_url(asked.as_str())?;
    if is_shareless(again.as_str()) || is_lone_drive(again.as_str()) {
        None
    } else {
        Some(Question { text: asked.clone(), address: asked })
    }
}

/// The components of a path with slashes. Neither empty ones nor lone dots count.
pub open spec fn segments(path: Seq<char>) -> Seq<Seq<char>>
    decreases path.len() via segments_shrink
{
    if path.len() == 0 {
        Seq::empty()
    } else if path.last() == '/' {
        segments(path.drop_last())
    } else {
        let name = last_component(path);
        let before = segments(path.take(path.len() - name.len()));
        if name == seq!['.'] {
            before
        } else {
            before.push(name)
        }
    }
}

#[via_fn]
proof fn segments_shrink(path: Seq<char>) {
    if path.len() > 0 && path.last() != '/' {
        lemma_last_component(path);
    }
}

/// The last component of a path is at its end, and is not empty where no slash is.
pub(crate) proof fn lemma_last_component(path: Seq<char>)
    ensures
        last_component(path).is_suffix_of(path),
        path.len() > 0 && path.last() != '/' ==> last_component(path).len() > 0,
    decreases path.len(),
{
    if path.len() > 0 && path.last() != '/' {
        let rest = path.drop_last();
        lemma_last_component(rest);
        let name = last_component(rest);
        assert(name =~= rest.subrange(rest.len() - name.len(), rest.len() as int));
        assert(last_component(path) =~= path.subrange(
            path.len() - name.len() - 1,
            path.len() as int,
        ));
    }
}

/// A slash at the end of a path, or a lone dot behind one, does not change its components.
pub proof fn law_slash_at_the_end(path: Seq<char>)
    ensures
        segments(path.push('/')) == segments(path),
        segments(path.push('/').push('.')) == segments(path),
{
    let slashed = path.push('/');
    let dotted = slashed.push('.');
    assert(slashed.drop_last() =~= path);
    assert(dotted.drop_last() =~= slashed);
    assert(last_component(slashed) == Seq::<char>::empty());
    assert(last_component(dotted) =~= seq!['.']);
    assert(dotted.take(dotted.len() - 1) =~= slashed);
}

/// The pieces of bytes between slashes.
pub open spec fn byte_pieces(bytes: Seq<u8>) -> Seq<Seq<u8>>
    decreases bytes.len(),
{
    if bytes.len() == 0 {
        seq![Seq::empty()]
    } else {
        let earlier = byte_pieces(bytes.drop_last());
        if bytes.last() == 0x2F {
            earlier.push(Seq::empty())
        } else {
            earlier.drop_last().push(earlier.last().push(bytes.last()))
        }
    }
}

/// Whether a piece between slashes is a component: neither empty nor a lone dot.
pub open spec fn is_component(piece: Seq<u8>) -> bool {
    piece.len() > 0 && piece != seq![0x2Eu8]
}

/// The components of a path of bytes with slashes.
pub open spec fn byte_segments(bytes: Seq<u8>) -> Seq<Seq<u8>> {
    byte_pieces(bytes).filter(|piece: Seq<u8>| is_component(piece))
}

/// What a list of bytes stands for.
pub open spec fn byte_views(list: Seq<Vec<u8>>) -> Seq<Seq<u8>> {
    list.map_values(|bytes: Vec<u8>| bytes@)
}

/// Adds a piece to a list if it is a component.
fn add_component(list: &mut Vec<Vec<u8>>, piece: Vec<u8>, Ghost(pieces): Ghost<Seq<Seq<u8>>>)
    requires
        byte_views(old(list)@) == pieces.filter(|piece: Seq<u8>| is_component(piece)),
    ensures
        byte_views(final(list)@) == pieces.push(piece@).filter(
            |piece: Seq<u8>| is_component(piece),
        ),
{
    let ghost view = piece@;
    let ghost before = byte_views(list@);
    proof {
        reveal(Seq::filter);
        assert(pieces.push(view).drop_last() =~= pieces);
    }
    let lone_dot: bool = piece.len() == 1 && piece[0] == 0x2E;
    assert(lone_dot == (view =~= seq![0x2Eu8]));
    if piece.len() > 0 && !lone_dot {
        list.push(piece);
        assert(byte_views(list@) =~= before.push(view));
    }
}

/// The components of a path of bytes with slashes.
fn split_bytes(bytes: &Vec<u8>) -> (parts: Vec<Vec<u8>>)
    ensures
        byte_views(parts@) == byte_segments(bytes@),
{
    let mut parts: Vec<Vec<u8>> = Vec::new();
    let mut piece: Vec<u8> = Vec::new();
    let ghost mut done: Seq<Seq<u8>> = Seq::empty();
    proof {
        reveal(Seq::filter);
        assert(byte_views(parts@) =~= done.filter(|piece: Seq<u8>| is_component(piece)));
        assert(bytes@.take(0) =~= Seq::empty());
        assert(byte_pieces(bytes@.take(0)) =~= done.push(piece@));
    }
    let mut k: usize = 0;
    while k < bytes.len()
        invariant
            k <= bytes@.len(),
            byte_views(parts@) == done.filter(|piece: Seq<u8>| is_component(piece)),
            byte_pieces(bytes@.take(k as int)) == done.push(piece@),
        decreases bytes@.len() - k,
    {
        let ghost here = piece@;
        proof {
            assert(bytes@.take(k + 1).drop_last() =~= bytes@.take(k as int));
            assert(done.push(here).drop_last() =~= done);
        }
        if bytes[k] == 0x2F {
            add_component(&mut parts, piece, Ghost(done));
            piece = Vec::new();
            proof {
                done = done.push(here);
                assert(piece@ =~= Seq::empty());
            }
        } else {
            piece.push(bytes[k]);
        }
        k += 1;
    }
    assert(bytes@.take(k as int) =~= bytes@);
    add_component(&mut parts, piece, Ghost(done));
    parts
}

/// The value of a hexadecimal digit.
fn hex_digit_value(byte: u8) -> (value: Option<u8>)
    ensures
        match value {
            Some(value) => value < 16 && hex_value(byte) == Some(value as int),
            None => hex_value(byte) is None,
        },
{
    if 0x30 <= byte && byte <= 0x39 {
        Some(byte - 0x30)
    } else if 0x41 <= byte && byte <= 0x46 {
        Some(byte - 0x41 + 10)
    } else if 0x61 <= byte && byte <= 0x66 {
        Some(byte - 0x61 + 10)
    } else {
        None
    }
}

/// The bytes that a text with escapes stands for.
fn unescape(bytes: &[u8]) -> (plain: Vec<u8>)
    ensures
        plain@ == unescaped(bytes@),
{
    let mut plain: Vec<u8> = Vec::new();
    let n: usize = bytes.len();
    let mut k: usize = 0;
    assert(bytes@.skip(0) =~= bytes@);
    assert(plain@ + unescaped(bytes@.skip(0)) =~= unescaped(bytes@));
    while k < n
        invariant
            k <= n,
            n == bytes@.len(),
            plain@ + unescaped(bytes@.skip(k as int)) == unescaped(bytes@),
        decreases n - k,
    {
        let ghost before = plain@;
        let ghost rest = bytes@.skip(k as int);
        assert(rest.skip(1) =~= bytes@.skip(k + 1));
        let mut value: Option<u8> = None;
        if bytes[k] == 0x25 && n - k >= 3 {
            assert(rest.skip(3) =~= bytes@.skip(k + 3));
            assert(rest[1] == bytes@[k + 1] && rest[2] == bytes@[k + 2]);
            match (hex_digit_value(bytes[k + 1]), hex_digit_value(bytes[k + 2])) {
                (Some(high), Some(low)) => {
                    value = Some(high * 16 + low);
                },
                _ => {},
            }
        }
        match value {
            Some(value) => {
                plain.push(value);
                k += 3;
                assert(plain@ + unescaped(bytes@.skip(k as int)) =~= before + unescaped(rest));
            },
            None => {
                plain.push(bytes[k]);
                k += 1;
                assert(plain@ + unescaped(bytes@.skip(k as int)) =~= before + unescaped(rest));
            },
        }
    }
    assert(bytes@.skip(k as int) =~= Seq::empty());
    assert(plain@ =~= plain@ + unescaped(bytes@.skip(k as int)));
    plain
}

/// The components of an address without its query and its escapes.
pub open spec fn address_segments(address: Seq<char>) -> Seq<Seq<u8>> {
    byte_segments(unescaped(encode_utf8(without_query(address))))
}

/// The components of an address without its query and its escapes.
pub(crate) fn split_address(address: &str) -> (parts: Vec<Vec<u8>>)
    ensures
        byte_views(parts@) == address_segments(address@),
{
    let plain = unescape(cut_query(address).as_bytes());
    split_bytes(&plain)
}

/// Whether an end of a name is one that the file at an address can have.
pub open spec fn extension_fits(url: Seq<char>, extension: Option<Seq<char>>) -> bool {
    match asked(url) {
        Some(address) => fits_name(address, extension),
        None => extension is None,
    }
}

/// The end of the name of the file at an address, if it has a path and its name such an end. What
/// is not an address has none. Which addresses have a path is up to the operating system; where
/// there is one, the end is that of the last component of the address.
pub fn url_extension(url: &str) -> (extension: Option<String>)
    ensures
        extension_fits(url@, text_of(extension)),
{
    let question: Question = question_of(url)?;
    address_extension(question.text.as_str())
}

} // verus!
