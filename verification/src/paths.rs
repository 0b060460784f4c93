//! Entry names as relative paths: what stays of a name once it is cleaned, and
//! which names are refused.

use vstd::prelude::*;

use crate::error::CoZipError;
use crate::names::{chars_of, path_part_name, zip_name_part_from_os_str};

verus! {

/// The pieces of a text between separators. There is always at least one.
pub open spec fn split_on(text: Seq<char>, sep: char) -> Seq<Seq<char>>
    decreases text.len(),
{
    if text.len() == 0 {
        seq![Seq::<char>::empty()]
    } else {
        let front = split_on(text.drop_last(), sep);
        if text.last() == sep {
            front.push(Seq::empty())
        } else {
            front.drop_last().push(front.last().push(text.last()))
        }
    }
}

/// The pieces, one after the other, with a slash between two of them.
pub open spec fn join_slash(parts: Seq<Seq<char>>) -> Seq<char>
    decreases parts.len(),
{
    if parts.len() == 0 {
        Seq::empty()
    } else if parts.len() == 1 {
        parts[0]
    } else {
        join_slash(parts.drop_last()) + seq!['/'] + parts.last()
    }
}

/// The name with every backslash turned into a slash.
pub open spec fn slashed(name: Seq<char>) -> Seq<char> {
    name.map_values(
        |ch: char|
            if ch == '\\' {
                '/'
            } else {
                ch
            },
    )
}

/// The piece names something: it is neither empty nor the current directory.
pub open spec fn is_named(part: Seq<char>) -> bool {
    part.len() > 0 && part != seq!['.']
}

/// The pieces that name something.
pub open spec fn named_parts(parts: Seq<Seq<char>>) -> Seq<Seq<char>>
    decreases parts.len(),
{
    if parts.len() == 0 {
        Seq::empty()
    } else if is_named(parts.last()) {
        named_parts(parts.drop_last()).push(parts.last())
    } else {
        named_parts(parts.drop_last())
    }
}

/// The piece leads out of the directory.
pub open spec fn is_parent(part: Seq<char>) -> bool {
    part == seq!['.', '.']
}

/// The rules by which a system reads paths.
#[derive(Debug, Clone, Copy, PartialEq, Eq, Structural)]
pub enum PathStyle {
    /// A path starts at the root or is relative.
    Unix,
    /// A path can also start with a drive.
    Windows,
}

/// The character is a letter that can stand for a drive.
pub open spec fn is_drive_letter(ch: char) -> bool {
    ('a' <= ch <= 'z') || ('A' <= ch <= 'Z')
}

/// The path starts with a drive: a letter and a colon.
pub open spec fn starts_with_drive(path: Seq<char>) -> bool {
    path.len() >= 2 && is_drive_letter(path[0]) && path[1] == ':'
}

/// The path starts with a drive, on a system that has drives.
pub open spec fn names_drive(path: Seq<char>, style: PathStyle) -> bool {
    style == PathStyle::Windows && starts_with_drive(path)
}

/// The name is absolute, names a drive, or leads out of the directory somewhere on
/// its way.
pub open spec fn escapes(name: Seq<char>, style: PathStyle) -> bool {
    let path = slashed(name);
    ||| path.len() > 0 && path[0] == '/'
    ||| names_drive(path, style)
    ||| exists|i: int|
        0 <= i < split_on(path, '/').len() && is_parent(#[trigger] split_on(path, '/')[i])
}

/// The components of an entry name.
pub open spec fn name_parts(name: Seq<char>, style: PathStyle) -> Result<
    Seq<Seq<char>>,
    CoZipError,
> {
    let parts = named_parts(split_on(slashed(name), '/'));
    if escapes(name, style) {
        Err(
            CoZipError::InvalidEntryName("entry name must be relative without parent traversal"),
        )
    } else if parts.len() == 0 {
        Err(CoZipError::InvalidEntryName("entry name is empty"))
    } else {
        Ok(parts)
    }
}

/// The cleaned form of an entry name.
pub open spec fn normalized_name(name: Seq<char>, style: PathStyle) -> Result<
    Seq<char>,
    CoZipError,
> {
    match name_parts(name, style) {
        Ok(parts) => Ok(join_slash(parts)),
        Err(error) => Err(error),
    }
}

/// The texts of a list of strings.
pub open spec fn texts_of(parts: Seq<String>) -> Seq<Seq<char>> {
    Seq::new(parts.len(), |i: int| parts[i]@)
}

/// A text as a string.
fn string_of(chars: &Vec<char>) -> (text: String)
    ensures
        text@ == chars@,
{
    let mut text = String::new();
    let mut i: usize = 0;
    while i < chars.len()
        invariant
            i <= chars@.len(),
            text@ == chars@.take(i as int),
        decreases chars@.len() - i,
    {
        text.push(chars[i]);
        i = i + 1;
        assert(text@ =~= chars@.take(i as int));
    }
    assert(chars@.take(i as int) =~= chars@);
    text
}

/// The texts of a list of character lists.
pub open spec fn chars_texts(parts: Seq<Vec<char>>) -> Seq<Seq<char>> {
    Seq::new(parts.len(), |i: int| parts[i]@)
}

/// Splits a name at slashes and backslashes.
fn split_name(name: &str) -> (parts: Vec<Vec<char>>)
    ensures
        chars_texts(parts@) == split_on(slashed(name@), '/'),
{
    let chars = chars_of(name);
    let ghost path = slashed(name@);
    let mut parts: Vec<Vec<char>> = Vec::new();
    let mut current: Vec<char> = Vec::new();
    let mut i: usize = 0;
    assert(path.take(0) =~= Seq::<char>::empty());
    assert(chars_texts(parts@).push(current@) =~= split_on(path.take(0), '/'));
    while i < chars.len()
        invariant
            i <= chars@.len(),
            chars@ == name@,
            path == slashed(name@),
            chars_texts(parts@).push(current@) == split_on(path.take(i as int), '/'),
        decreases chars@.len() - i,
    {
        let ghost before = chars_texts(parts@).push(current@);
        let ghost prefix = path.take(i + 1);
        proof {
            assert(prefix.drop_last() =~= path.take(i as int));
            assert(prefix.last() == path[i as int]);
        }
        let ch: char = chars[i];
        if ch == '/' || ch == '\\' {
            parts.push(current);
            current = Vec::new();
            assert(chars_texts(parts@).push(current@) =~= before.push(Seq::empty()));
        } else {
            let ghost old_current = current@;
            current.push(ch);
            assert(chars_texts(parts@).push(current@) =~= before.drop_last().push(
                before.last().push(ch),
            ));
        }
        i = i + 1;
    }
    assert(path.take(i as int) =~= path);
    parts.push(current);
    assert(chars_texts(parts@) =~= split_on(path, '/'));
    parts
}

/// Whether a piece is the two dots that lead out of a directory.
fn is_parent_part(part: &Vec<char>) -> (parent: bool)
    ensures
        parent == is_parent(part@),
{
    let parent = part.len() == 2 && part[0] == '.' && part[1] == '.';
    proof {
        if parent {
            assert(part@ =~= seq!['.', '.']);
        }
    }
    parent
}

/// Whether a piece names something.
fn is_named_part(part: &Vec<char>) -> (named: bool)
    ensures
        named == is_named(part@),
{
    let current = part.len() == 1 && part[0] == '.';
    proof {
        if current {
            assert(part@ =~= seq!['.']);
        }
    }
    part.len() > 0 && !current
}

/// The first character of a text is the first of its first piece, or a separator.
proof fn lemma_leading_separator(text: Seq<char>, sep: char)
    ensures
        split_on(text, sep).len() > 0,
        text.len() > 0 && text[0] == sep ==> split_on(text, sep)[0].len() == 0 && split_on(
            text,
            sep,
        ).len() > 1,
        text.len() > 0 && text[0] != sep ==> split_on(text, sep)[0].len() > 0,
    decreases text.len(),
{
    if text.len() > 0 {
        lemma_leading_separator(text.drop_last(), sep);
        if text.len() > 1 {
            assert(text.drop_last()[0] == text[0]);
        }
    }
}

/// Whether a path starts with a drive, on a system that has drives.
fn has_drive(pieces: &Vec<Vec<char>>, style: PathStyle) -> (found: bool)
    requires
        pieces@.len() > 0,
    ensures
        found == names_drive(pieces@[0]@, style),
{
    let first = &pieces[0];
    match style {
        PathStyle::Unix => false,
        PathStyle::Windows => first.len() >= 2 && first[1] == ':' && (('a' <= first[0] && first[0]
            <= 'z') || ('A' <= first[0] && first[0] <= 'Z')),
    }
}

/// A path starts with a drive where its first piece does.
proof fn lemma_drive_in_front(text: Seq<char>)
    ensures
        split_on(text, '/').len() > 0,
        starts_with_drive(text) == starts_with_drive(split_on(text, '/')[0]),
    decreases text.len(),
{
    lemma_first_piece(text);
    let first = split_on(text, '/')[0];
    if first.len() >= 2 {
        assert(first[0] == text[0] && first[1] == text[1]);
    } else if text.len() >= 2 && is_drive_letter(text[0]) && text[1] == ':' {
        assert(first.len() == text.len() || text[first.len() as int] == '/');
    }
}

/// The first piece is what stands in front of the first separator.
proof fn lemma_first_piece(text: Seq<char>)
    ensures
        split_on(text, '/').len() > 0,
        split_on(text, '/')[0].len() <= text.len(),
        split_on(text, '/')[0] == text.take(split_on(text, '/')[0].len() as int),
        split_on(text, '/')[0].len() < text.len() ==> text[split_on(text, '/')[0].len() as int]
            == '/',
        split_on(text, '/').len() == 1 ==> split_on(text, '/')[0] == text,
        split_on(text, '/').len() > 1 ==> split_on(text, '/')[0].len() < text.len(),
    decreases text.len(),
{
    if text.len() == 0 {
        assert(text.take(0) =~= Seq::<char>::empty());
        assert(text =~= Seq::<char>::empty());
    } else {
        let shorter = text.drop_last();
        lemma_first_piece(shorter);
        let first = split_on(text, '/')[0];
        let front = split_on(shorter, '/');
        if text.last() == '/' {
            assert(first == front[0]);
            assert(first =~= text.take(first.len() as int));
        } else if front.len() == 1 {
            assert(first =~= shorter.push(text.last()));
            assert(first =~= text);
            assert(text.take(text.len() as int) =~= text);
        } else {
            assert(first == front[0]);
            assert(first =~= text.take(first.len() as int));
        }
    }
}

/// Cleans an entry name and returns its components, by the rules of a system.
pub fn entry_path_from_zip_name(name: &str, style: PathStyle) -> (r: Result<
    Vec<String>,
    CoZipError,
>)
    ensures
        match r {
            Ok(parts) => name_parts(name@, style) == Ok::<Seq<Seq<char>>, CoZipError>(
                texts_of(parts@),
            ),
            Err(error) => name_parts(name@, style) == Err::<Seq<Seq<char>>, CoZipError>(error),
        },
{
    let pieces = split_name(name);
    let ghost split = split_on(slashed(name@), '/');
    proof {
        lemma_leading_separator(slashed(name@), '/');
        lemma_drive_in_front(slashed(name@));
        assert(pieces@.len() == split.len());
        assert(split[0] == pieces@[0]@);
    }
    if (pieces.len() > 1 && pieces[0].len() == 0) || has_drive(&pieces, style) {
        return Err(
            CoZipError::InvalidEntryName("entry name must be relative without parent traversal"),
        );
    }
    let mut parts: Vec<String> = Vec::new();
    let mut i: usize = 0;
    assert(split.take(0) =~= Seq::<Seq<char>>::empty());
    assert(texts_of(parts@) =~= named_parts(split.take(0)));
    while i < pieces.len()
        invariant
            i <= pieces@.len(),
            chars_texts(pieces@) == split,
            split == split_on(slashed(name@), '/'),
            !names_drive(slashed(name@), style),
            texts_of(parts@) == named_parts(split.take(i as int)),
            forall|j: int| 0 <= j < i ==> !is_parent(#[trigger] split[j]),
        decreases pieces@.len() - i,
    {
        proof {
            let prefix = split.take(i + 1);
            assert(prefix.drop_last() =~= split.take(i as int));
            assert(prefix.last() == split[i as int]);
            assert(split[i as int] == pieces@[i as int]@);
        }
        if is_parent_part(&pieces[i]) {
            assert(is_parent(split[i as int]));
            return Err(
                CoZipError::InvalidEntryName(
                    "entry name must be relative without parent traversal",
                ),
            );
        }
        if is_named_part(&pieces[i]) {
            let ghost before = texts_of(parts@);
            parts.push(string_of(&pieces[i]));
            assert(texts_of(parts@) =~= before.push(split[i as int]));
        }
        i = i + 1;
    }
    assert(split.take(i as int) =~= split);
    if parts.len() == 0 {
        return Err(CoZipError::InvalidEntryName("entry name is empty"));
    }
    Ok(parts)
}

/// Joins names with slashes.
fn join_names(parts: &Vec<String>) -> (joined: String)
    ensures
        joined@ == join_slash(texts_of(parts@)),
{
    let mut joined = String::new();
    let mut i: usize = 0;
    let ghost texts = texts_of(parts@);
    assert(texts.take(0) =~= Seq::<Seq<char>>::empty());
    assert(joined@ =~= join_slash(texts.take(0)));
    while i < parts.len()
        invariant
            i <= parts@.len(),
            texts == texts_of(parts@),
            joined@ == join_slash(texts.take(i as int)),
        decreases parts@.len() - i,
    {
        let ghost before = joined@;
        proof {
            let prefix = texts.take(i + 1);
            assert(prefix.drop_last() =~= texts.take(i as int));
            assert(prefix.last() == parts@[i as int]@);
        }
        if i > 0 {
            joined.push('/');
        }
        joined.append(parts[i].as_str());
        proof {
            if i == 0 {
                assert(joined@ =~= texts.take(1)[0]);
            } else {
                assert(joined@ =~= before + seq!['/'] + parts@[i as int]@);
            }
        }
        i = i + 1;
    }
    assert(texts.take(i as int) =~= texts);
    joined
}

/// Cleans an entry name, by the rules of a system.
pub fn normalize_zip_entry_name(name: &str, style: PathStyle) -> (r: Result<String, CoZipError>)
    ensures
        match r {
            Ok(normalized) => normalized_name(name@, style) == Ok::<Seq<char>, CoZipError>(
                normalized@,
            ),
            Err(error) => normalized_name(name@, style) == Err::<Seq<char>, CoZipError>(error),
        },
{
    match entry_path_from_zip_name(name, style) {
        Ok(parts) => Ok(join_names(&parts)),
        Err(error) => Err(error),
    }
}

/// A component of a path, as the operating system splits it.
#[derive(Debug, Clone, PartialEq, Eq)]
pub enum PathComponent {
    /// A name, in the bytes that the system uses.
    Normal(Vec<u8>),
    /// The directory itself.
    CurDir,
    /// The directory above.
    ParentDir,
    /// The root.
    RootDir,
    /// A drive or share.
    Prefix,
}

/// The component stays inside the directory.
pub open spec fn stays_inside(component: PathComponent) -> bool {
    component is Normal || component is CurDir
}

/// The names in a path.
pub open spec fn normal_names(components: Seq<PathComponent>) -> Seq<Seq<u8>>
    decreases components.len(),
{
    if components.len() == 0 {
        Seq::empty()
    } else {
        match components.last() {
            PathComponent::Normal(name) => normal_names(components.drop_last()).push(name@),
            _ => normal_names(components.drop_last()),
        }
    }
}

/// The names that the first `n` components of a relative path get in an archive,
/// or the first error on the way.
pub open spec fn relative_parts(components: Seq<PathComponent>, n: int) -> Result<
    Seq<Seq<char>>,
    CoZipError,
>
    decreases n,
{
    if n <= 0 {
        Ok(Seq::empty())
    } else {
        match relative_parts(components, n - 1) {
            Err(error) => Err(error),
            Ok(parts) => match components[n - 1] {
                PathComponent::Normal(bytes) => match path_part_name(bytes@) {
                    Ok(name) => Ok(parts.push(name)),
                    Err(error) => Err(error),
                },
                PathComponent::CurDir => Ok(parts),
                _ => Err(
                    CoZipError::InvalidEntryName("relative path contains invalid component"),
                ),
            },
        }
    }
}

/// The entry name of a file, from its path below the directory that is archived.
pub open spec fn relative_name(components: Seq<PathComponent>) -> Result<Seq<char>, CoZipError> {
    match relative_parts(components, components.len() as int) {
        Err(error) => Err(error),
        Ok(parts) => if parts.len() == 0 {
            Err(CoZipError::InvalidEntryName("entry name is empty"))
        } else {
            Ok(join_slash(parts))
        },
    }
}

proof fn lemma_relative_error_stays(components: Seq<PathComponent>, n: int, m: int)
    requires
        n <= m,
        relative_parts(components, n) is Err,
    ensures
        relative_parts(components, m) == relative_parts(components, n),
    decreases m - n,
{
    if n < m {
        lemma_relative_error_stays(components, n, m - 1);
    }
}

/// Names a file in an archive by its path below the directory that is archived.
pub fn zip_name_from_relative_path(components: &[PathComponent]) -> (r: Result<String, CoZipError>)
    requires
        forall|i: int|
            0 <= i < components@.len() ==> (#[trigger] components@[i] matches PathComponent::Normal(
                name,
            ) ==> name@.len() <= usize::MAX / 256),
    ensures
        match r {
            Ok(name) => relative_name(components@) == Ok::<Seq<char>, CoZipError>(name@),
            Err(error) => relative_name(components@) == Err::<Seq<char>, CoZipError>(error),
        },
{
    let mut parts: Vec<String> = Vec::new();
    let mut i: usize = 0;
    assert(texts_of(parts@) =~= Seq::<Seq<char>>::empty());
    while i < components.len()
        invariant
            i <= components@.len(),
            relative_parts(components@, i as int) == Ok::<Seq<Seq<char>>, CoZipError>(
                texts_of(parts@),
            ),
            forall|i: int|
                0 <= i < components@.len() ==> (
                #[trigger] components@[i] matches PathComponent::Normal(name) ==> name@.len()
                    <= usize::MAX / 256),
        decreases components@.len() - i,
    {
        let ghost before = texts_of(parts@);
        assert(relative_parts(components@, i + 1) is Err ==> relative_parts(
            components@,
            components@.len() as int,
        ) == relative_parts(components@, i + 1)) by {
            if relative_parts(components@, i + 1) is Err {
                lemma_relative_error_stays(components@, i + 1, components@.len() as int);
            }
        }
        match &components[i] {
            PathComponent::Normal(bytes) => {
                match zip_name_part_from_os_str(bytes.as_slice()) {
                    Ok(name) => {
                        parts.push(name);
                        assert(texts_of(parts@) =~= before.push(name@));
                    },
                    Err(error) => {
                        return Err(error);
                    },
                }
            },
            PathComponent::CurDir => {},
            _ => {
                return Err(
                    CoZipError::InvalidEntryName("relative path contains invalid component"),
                );
            },
        }
        i = i + 1;
    }
    if parts.len() == 0 {
        return Err(CoZipError::InvalidEntryName("entry name is empty"));
    }
    Ok(join_names(&parts))
}

/// The entry name of a single file.
pub open spec fn single_file_name(file_name: Option<Seq<u8>>, style: PathStyle) -> Result<
    Seq<char>,
    CoZipError,
> {
    match file_name {
        None => Err(CoZipError::InvalidEntryName("file name is missing")),
        Some(bytes) => match path_part_name(bytes) {
            Ok(name) => normalized_name(name, style),
            Err(error) => Err(error),
        },
    }
}

/// Names a single file by the last component of its path.
pub fn file_name_from_path(file_name: Option<&[u8]>, style: PathStyle) -> (r: Result<
    String,
    CoZipError,
>)
    requires
        file_name matches Some(bytes) ==> bytes@.len() <= usize::MAX / 256,
    ensures
        ({
            let named = single_file_name(
                match file_name {
                    Some(bytes) => Some(bytes@),
                    None => None,
                },
                style,
            );
            match r {
                Ok(name) => named == Ok::<Seq<char>, CoZipError>(name@),
                Err(error) => named == Err::<Seq<char>, CoZipError>(error),
            }
        }),
{
    match file_name {
        None => Err(CoZipError::InvalidEntryName("file name is missing")),
        Some(bytes) => match zip_name_part_from_os_str(bytes) {
            Ok(name) => normalize_zip_entry_name(name.as_str(), style),
            Err(error) => Err(error),
        },
    }
}

/// The byte strings of a list of vectors.
pub open spec fn byte_texts(parts: Seq<Vec<u8>>) -> Seq<Seq<u8>> {
    Seq::new(parts.len(), |i: int| parts[i]@)
}

/// The names below the output directory under which an entry of a foreign
/// archive is written. `None` where the path leads out of the directory.
pub fn contained_path(components: &[PathComponent]) -> (names: Option<Vec<Vec<u8>>>)
    ensures
        match names {
            Some(names) => byte_texts(names@) == normal_names(components@) && forall|i: int|
                0 <= i < components@.len() ==> stays_inside(#[trigger] components@[i]),
            None => exists|i: int|
                0 <= i < components@.len() && !stays_inside(#[trigger] components@[i]),
        },
{
    let mut names: Vec<Vec<u8>> = Vec::new();
    let mut i: usize = 0;
    assert(components@.take(0) =~= Seq::<PathComponent>::empty());
    assert(byte_texts(names@) =~= normal_names(components@.take(0)));
    while i < components.len()
        invariant
            i <= components@.len(),
            byte_texts(names@) == normal_names(components@.take(i as int)),
            forall|j: int| 0 <= j < i ==> stays_inside(#[trigger] components@[j]),
        decreases components@.len() - i,
    {
        let ghost before = byte_texts(names@);
        proof {
            let prefix = components@.take(i + 1);
            assert(prefix.drop_last() =~= components@.take(i as int));
            assert(prefix.last() == components@[i as int]);
        }
        match &components[i] {
            PathComponent::Normal(name) => {
                let copied = crate::le::copy_range(name.as_slice(), 0, name.len());
                assert(copied@ =~= name@);
                names.push(copied);
                assert(byte_texts(names@) =~= before.push(name@));
            },
            PathComponent::CurDir => {},
            _ => {
                assert(!stays_inside(components@[i as int]));
                return None;
            },
        }
        i = i + 1;
    }
    assert(components@.take(i as int) =~= components@);
    Some(names)
}

/// Two pieces apart by a separator are split apart.
proof fn lemma_split_append(text: Seq<char>, piece: Seq<char>, sep: char)
    requires
        !piece.contains(sep),
    ensures
        split_on(text + seq![sep] + piece, sep) == split_on(text, sep).push(piece),
    decreases piece.len(),
{
    let whole = text + seq![sep] + piece;
    if piece.len() == 0 {
        assert(whole.drop_last() =~= text);
        assert(piece =~= Seq::<char>::empty());
    } else {
        let shorter = piece.drop_last();
        assert(piece.contains(piece.last()));
        assert forall|ch: char| shorter.contains(ch) implies piece.contains(ch) by {
            let i = choose|i: int| 0 <= i < shorter.len() && shorter[i] == ch;
            assert(piece[i] == ch);
        }
        lemma_split_append(text, shorter, sep);
        assert(whole.drop_last() =~= text + seq![sep] + shorter);
        let front = split_on(text, sep).push(shorter);
        assert(front.drop_last() =~= split_on(text, sep));
        assert(shorter.push(piece.last()) =~= piece);
    }
}

/// A text without a separator is one piece.
proof fn lemma_split_single(text: Seq<char>, sep: char)
    requires
        !text.contains(sep),
    ensures
        split_on(text, sep) == seq![text],
    decreases text.len(),
{
    if text.len() > 0 {
        let shorter = text.drop_last();
        assert(text.contains(text.last()));
        assert forall|ch: char| shorter.contains(ch) implies text.contains(ch) by {
            let i = choose|i: int| 0 <= i < shorter.len() && shorter[i] == ch;
            assert(text[i] == ch);
        }
        lemma_split_single(shorter, sep);
        assert(shorter.push(text.last()) =~= text);
        assert(seq![shorter].drop_last().push(text) =~= seq![text]);
    } else {
        assert(text =~= Seq::<char>::empty());
    }
}

/// Splitting undoes joining, where no piece holds a slash.
pub proof fn law_split_join(parts: Seq<Seq<char>>)
    requires
        parts.len() > 0,
        forall|i: int| 0 <= i < parts.len() ==> !(#[trigger] parts[i]).contains('/'),
    ensures
        split_on(join_slash(parts), '/') == parts,
    decreases parts.len(),
{
    if parts.len() == 1 {
        lemma_split_single(parts[0], '/');
        assert(parts =~= seq![parts[0]]);
    } else {
        let front = parts.drop_last();
        law_split_join(front);
        lemma_split_append(join_slash(front), parts.last(), '/');
        assert(front.push(parts.last()) =~= parts);
    }
}

/// Every piece is made of characters of the text, and none of them is the separator.
proof fn lemma_split_pieces(text: Seq<char>, sep: char, i: int, ch: char)
    requires
        0 <= i < split_on(text, sep).len(),
        split_on(text, sep)[i].contains(ch),
    ensures
        ch != sep,
        text.contains(ch),
    decreases text.len(),
{
    if text.len() > 0 {
        let front = split_on(text.drop_last(), sep);
        let shorter = text.drop_last();
        if text.last() == sep {
            if i < front.len() {
                lemma_split_pieces(shorter, sep, i, ch);
                assert(text.contains(ch)) by {
                    let k = choose|k: int| 0 <= k < shorter.len() && shorter[k] == ch;
                    assert(text[k] == ch);
                }
            }
        } else {
            lemma_leading_separator(shorter, sep);
            let piece = split_on(text, sep)[i];
            if i == front.len() - 1 && ch == text.last() {
                assert(text[text.len() - 1] == ch);
            } else {
                assert(front[i].contains(ch)) by {
                    let k = choose|k: int| 0 <= k < piece.len() && piece[k] == ch;
                    assert(front[i][k] == ch);
                }
                lemma_split_pieces(shorter, sep, i, ch);
                assert(text.contains(ch)) by {
                    let k = choose|k: int| 0 <= k < shorter.len() && shorter[k] == ch;
                    assert(text[k] == ch);
                }
            }
        }
    }
}

/// Each piece that is kept is one of the pieces, and names something.
proof fn lemma_named_parts_from(parts: Seq<Seq<char>>, i: int)
    requires
        0 <= i < named_parts(parts).len(),
    ensures
        is_named(named_parts(parts)[i]),
        parts.contains(named_parts(parts)[i]),
    decreases parts.len(),
{
    if parts.len() > 0 {
        let front = parts.drop_last();
        if i < named_parts(front).len() {
            lemma_named_parts_from(front, i);
            let k = choose|k: int| 0 <= k < front.len() && front[k] == named_parts(front)[i];
            assert(parts[k] == named_parts(parts)[i]);
        } else {
            assert(parts[parts.len() - 1] == named_parts(parts)[i]);
        }
    }
}

/// Nothing is dropped where every piece names something.
proof fn lemma_named_parts_keep(parts: Seq<Seq<char>>)
    requires
        forall|i: int| 0 <= i < parts.len() ==> is_named(#[trigger] parts[i]),
    ensures
        named_parts(parts) == parts,
    decreases parts.len(),
{
    if parts.len() > 0 {
        let front = parts.drop_last();
        assert forall|i: int| 0 <= i < front.len() implies is_named(#[trigger] front[i]) by {
            assert(front[i] == parts[i]);
        }
        lemma_named_parts_keep(front);
        assert(front.push(parts.last()) =~= parts);
    }
}

/// The components of an accepted name: each names something, none leads out of
/// the directory, and none holds a slash or a backslash.
pub proof fn law_name_parts_are_safe(name: Seq<char>, style: PathStyle, i: int)
    requires
        name_parts(name, style) is Ok,
        0 <= i < name_parts(name, style)->Ok_0.len(),
    ensures
        is_named(name_parts(name, style)->Ok_0[i]),
        !is_parent(name_parts(name, style)->Ok_0[i]),
        !name_parts(name, style)->Ok_0[i].contains('/'),
        !name_parts(name, style)->Ok_0[i].contains('\\'),
{
    let path = slashed(name);
    let split = split_on(path, '/');
    let part = named_parts(split)[i];
    lemma_named_parts_from(split, i);
    let k = choose|k: int| 0 <= k < split.len() && split[k] == part;
    assert(!is_parent(split[k]));
    if part.contains('/') {
        lemma_split_pieces(path, '/', k, '/');
    }
    if part.contains('\\') {
        lemma_split_pieces(path, '/', k, '\\');
        let j = choose|j: int| 0 <= j < path.len() && path[j] == '\\';
        assert(false);
    }
}

/// A cleaned name splits into exactly the components that were kept.
pub proof fn law_normalized_name_splits(name: Seq<char>, style: PathStyle)
    requires
        name_parts(name, style) is Ok,
    ensures
        normalized_name(name, style) is Ok,
        split_on(normalized_name(name, style)->Ok_0, '/') == name_parts(name, style)->Ok_0,
{
    let parts = name_parts(name, style)->Ok_0;
    assert forall|i: int| 0 <= i < parts.len() implies !(#[trigger] parts[i]).contains('/') by {
        law_name_parts_are_safe(name, style, i);
    }
    law_split_join(parts);
}

proof fn lemma_join_chars(parts: Seq<Seq<char>>, ch: char)
    requires
        join_slash(parts).contains(ch),
        ch != '/',
    ensures
        exists|i: int| 0 <= i < parts.len() && (#[trigger] parts[i]).contains(ch),
    decreases parts.len(),
{
    if parts.len() == 1 {
        assert(parts[0].contains(ch));
    } else if parts.len() > 1 {
        let front = parts.drop_last();
        let whole = join_slash(parts);
        let k = choose|k: int| 0 <= k < whole.len() && whole[k] == ch;
        let cut = join_slash(front).len();
        if k < cut {
            assert(join_slash(front)[k] == ch);
            assert(join_slash(front).contains(ch));
            lemma_join_chars(front, ch);
            let i = choose|i: int| 0 <= i < front.len() && (#[trigger] front[i]).contains(ch);
            assert(parts[i].contains(ch));
        } else {
            assert(k > cut);
            assert(parts.last()[k - cut - 1] == ch);
            assert(parts[parts.len() - 1].contains(ch));
        }
    }
}

/// Names that name something, lead nowhere else and hold no separator come back
/// when their joined form is cleaned.
pub proof fn lemma_joined_names_split(parts: Seq<Seq<char>>, style: PathStyle)
    requires
        parts.len() > 0,
        forall|i: int| 0 <= i < parts.len() ==> is_plain(#[trigger] parts[i]),
        !names_drive(parts[0], style),
    ensures
        name_parts(join_slash(parts), style) == Ok::<Seq<Seq<char>>, CoZipError>(parts),
{
    let joined = join_slash(parts);
    assert forall|i: int| 0 <= i < parts.len() implies !(#[trigger] parts[i]).contains('/') by {
        assert(is_plain(parts[i]));
    }
    law_split_join(parts);
    assert(slashed(joined) =~= joined) by {
        assert forall|k: int| 0 <= k < joined.len() implies joined[k] != '\\' by {
            if joined[k] == '\\' {
                assert(joined.contains('\\'));
                lemma_join_chars(parts, '\\');
                let i = choose|i: int| 0 <= i < parts.len() && (#[trigger] parts[i]).contains('\\');
                assert(is_plain(parts[i]));
            }
        }
    }
    assert forall|i: int| 0 <= i < parts.len() implies is_named(#[trigger] parts[i]) && !is_parent(
        parts[i],
    ) by {
        assert(is_plain(parts[i]));
    }
    lemma_named_parts_keep(parts);
    lemma_leading_separator(joined, '/');
    lemma_drive_in_front(joined);
    assert(is_named(parts[0]));
    assert(!escapes(joined, style));
}

/// The piece names something inside the directory, and holds no separator.
pub open spec fn is_plain(part: Seq<char>) -> bool {
    &&& is_named(part)
    &&& !is_parent(part)
    &&& !part.contains('/')
    &&& !part.contains('\\')
}

/// Cleaning a name that was cleaned changes nothing. On a system with drives this
/// leaves out names whose cleaned form starts with one, as that of `./c:` does.
pub proof fn law_normalize_is_idempotent(name: Seq<char>, style: PathStyle)
    requires
        normalized_name(name, style) is Ok,
        !names_drive(normalized_name(name, style)->Ok_0, style),
    ensures
        normalized_name(normalized_name(name, style)->Ok_0, style) == normalized_name(name, style),
{
    let parts = name_parts(name, style)->Ok_0;
    law_normalized_name_splits(name, style);
    assert forall|i: int| 0 <= i < parts.len() implies is_plain(#[trigger] parts[i]) by {
        law_name_parts_are_safe(name, style, i);
    }
    lemma_drive_in_front(join_slash(parts));
    lemma_joined_names_split(parts, style);
}

/// A name that was made from the components of a path splits into them again, where
/// each is a name without separators. On a system with drives this leaves out paths
/// whose first name starts with one.
pub proof fn law_relative_name_splits(components: Seq<PathComponent>, style: PathStyle)
    requires
        relative_name(components) is Ok,
        ({
            let parts = relative_parts(components, components.len() as int)->Ok_0;
            &&& forall|i: int| 0 <= i < parts.len() ==> is_plain(#[trigger] parts[i])
            &&& !names_drive(parts[0], style)
        }),
    ensures
        name_parts(relative_name(components)->Ok_0, style) == relative_parts(
            components,
            components.len() as int,
        ),
        normalized_name(relative_name(components)->Ok_0, style) == relative_name(components),
{
    lemma_joined_names_split(relative_parts(components, components.len() as int)->Ok_0, style);
}

/// The pieces, one after the other, with the separators between them.
pub open spec fn joined_with(pieces: Seq<Seq<char>>, separators: Seq<char>) -> Seq<char>
    decreases pieces.len(),
{
    if pieces.len() == 0 {
        Seq::empty()
    } else if pieces.len() == 1 {
        pieces[0]
    } else {
        joined_with(pieces.drop_last(), separators.drop_last()) + seq![separators.last()]
            + pieces.last()
    }
}

/// The pieces of a name, which hold no separator, and the slashes and backslashes
/// between them.
pub open spec fn are_pieces(pieces: Seq<Seq<char>>, separators: Seq<char>) -> bool {
    &&& pieces.len() == separators.len() + 1
    &&& forall|i: int|
        0 <= i < separators.len() ==> #[trigger] separators[i] == '/' || separators[i] == '\\'
    &&& forall|i: int|
        0 <= i < pieces.len() ==> !(#[trigger] pieces[i]).contains('/') && !pieces[i].contains('\\')
}

proof fn lemma_joined_with(pieces: Seq<Seq<char>>, separators: Seq<char>)
    requires
        are_pieces(pieces, separators),
    ensures
        slashed(joined_with(pieces, separators)) == join_slash(pieces),
    decreases pieces.len(),
{
    let piece = pieces.last();
    assert(slashed(piece) =~= piece) by {
        assert forall|i: int| 0 <= i < piece.len() implies slashed(piece)[i] == piece[i] by {
            assert(piece.contains(piece[i]));
        }
    }
    if pieces.len() > 1 {
        let front = pieces.drop_last();
        let fewer = separators.drop_last();
        assert forall|i: int| 0 <= i < front.len() implies !(#[trigger] front[i]).contains('/')
            && !front[i].contains('\\') by {
            assert(front[i] == pieces[i]);
        }
        assert forall|i: int| 0 <= i < fewer.len() implies #[trigger] fewer[i] == '/' || fewer[i]
            == '\\' by {
            assert(fewer[i] == separators[i]);
        }
        lemma_joined_with(front, fewer);
        assert(separators[separators.len() - 1] == separators.last());
        assert(slashed(joined_with(pieces, separators)) =~= slashed(joined_with(front, fewer))
            + seq!['/'] + slashed(piece));
    }
}

/// The pieces that name something: all but the empty ones and single dots.
pub open spec fn naming_pieces(pieces: Seq<Seq<char>>) -> Seq<Seq<char>> {
    pieces.filter(|piece: Seq<char>| piece.len() > 0 && piece != "."@)
}

proof fn lemma_naming_pieces(pieces: Seq<Seq<char>>)
    ensures
        named_parts(pieces) == naming_pieces(pieces),
    decreases pieces.len(),
{
    reveal(Seq::filter);
    reveal_strlit(".");
    assert("."@ =~= seq!['.']);
    if pieces.len() > 0 {
        lemma_naming_pieces(pieces.drop_last());
    }
}

/// A name is taken apart at every slash and backslash. It is refused where it starts with
/// a separator, where one of its pieces is two dots, and on a system with drives where it
/// starts with one; and where no piece names anything. Of any other name those pieces
/// are kept, in their order, that are neither empty nor a single dot.
pub proof fn law_names_are_taken_apart(
    pieces: Seq<Seq<char>>,
    separators: Seq<char>,
    name: &str,
    style: PathStyle,
    r: Result<Vec<String>, CoZipError>,
)
    requires
        call_ensures(entry_path_from_zip_name, (name, style), r),
        are_pieces(pieces, separators),
        name@ == joined_with(pieces, separators),
    ensures
        ({
            let first = pieces[0];
            let absolute = pieces.len() > 1 && first.len() == 0;
            let drive = style == PathStyle::Windows && first.len() >= 2 && first[1] == ':' && ((
            'a' <= first[0] && first[0] <= 'z') || ('A' <= first[0] && first[0] <= 'Z'));
            let parent = exists|i: int| 0 <= i < pieces.len() && #[trigger] pieces[i] == ".."@;
            if absolute || drive || parent {
                r matches Err(CoZipError::InvalidEntryName(text)) && text@
                    == "entry name must be relative without parent traversal"@
            } else if naming_pieces(pieces).len() == 0 {
                r matches Err(CoZipError::InvalidEntryName(text)) && text@
                    == "entry name is empty"@
            } else {
                r matches Ok(parts) && texts_of(parts@) == naming_pieces(pieces)
            }
        }),
{
    lemma_joined_with(pieces, separators);
    law_split_join(pieces);
    lemma_naming_pieces(pieces);
    reveal_strlit("..");
    assert(".."@ =~= seq!['.', '.']);
    let path = slashed(name@);
    assert(split_on(path, '/') == pieces);
    lemma_leading_separator(path, '/');
    lemma_drive_in_front(path);
    if exists|i: int| 0 <= i < pieces.len() && #[trigger] pieces[i] == ".."@ {
        let i = choose|i: int| 0 <= i < pieces.len() && #[trigger] pieces[i] == ".."@;
        assert(is_parent(split_on(path, '/')[i]));
    }
    if path.len() == 0 {
        assert(path =~= Seq::<char>::empty());
        assert(split_on(path, '/') =~= seq![Seq::<char>::empty()]);
    }
}

/// So many slashes.
pub open spec fn slashes(n: int) -> Seq<char> {
    Seq::new(n as nat, |i: int| '/')
}

/// A cleaned name is made of the pieces that are kept, with a slash between two of them,
/// and a name is cleaned exactly where it can be taken apart.
pub proof fn law_cleaned_names_are_made_of_their_pieces(
    name: &str,
    style: PathStyle,
    apart: Result<Vec<String>, CoZipError>,
    cleaned: Result<String, CoZipError>,
)
    requires
        call_ensures(entry_path_from_zip_name, (name, style), apart),
        call_ensures(normalize_zip_entry_name, (name, style), cleaned),
    ensures
        apart matches Err(error) ==> cleaned == Err::<String, CoZipError>(error),
        apart matches Ok(parts) ==> parts@.len() > 0 && cleaned is Ok && cleaned->Ok_0@
            == joined_with(texts_of(parts@), slashes(parts@.len() - 1)),
{
    if let Ok(parts) = apart {
        lemma_joined_with_slashes(texts_of(parts@));
    }
}

proof fn lemma_joined_with_slashes(parts: Seq<Seq<char>>)
    requires
        parts.len() > 0,
    ensures
        joined_with(parts, slashes(parts.len() - 1)) == join_slash(parts),
    decreases parts.len(),
{
    if parts.len() > 1 {
        lemma_joined_with_slashes(parts.drop_last());
        assert(slashes(parts.len() - 1).drop_last() =~= slashes(parts.len() - 2));
    }
}

/// The components lead to a place below a directory: each is a name or the directory
/// itself.
pub open spec fn leads_below(components: Seq<PathComponent>) -> bool {
    forall|i: int|
        0 <= i < components.len() ==> match #[trigger] components[i] {
            PathComponent::Normal(_) => true,
            PathComponent::CurDir => true,
            PathComponent::ParentDir => false,
            PathComponent::RootDir => false,
            PathComponent::Prefix => false,
        }
}

/// The names among the components.
pub open spec fn names_among(components: Seq<PathComponent>) -> Seq<PathComponent> {
    components.filter(|component: PathComponent| component is Normal)
}

proof fn lemma_names_among(components: Seq<PathComponent>)
    ensures
        normal_names(components).len() == names_among(components).len(),
        forall|i: int|
            0 <= i < normal_names(components).len() ==> ((#[trigger] names_among(
                components,
            )[i]) matches PathComponent::Normal(name) && normal_names(components)[i] == name@),
    decreases components.len(),
{
    reveal(Seq::filter);
    if components.len() > 0 {
        lemma_names_among(components.drop_last());
    }
}

/// An entry of a foreign archive is written below the output directory, under the names
/// in its path and no others, or refused: exactly where its path goes up, starts at the
/// root or names a drive.
pub proof fn law_foreign_entries_stay_below(
    components: &[PathComponent],
    names: Option<Vec<Vec<u8>>>,
)
    requires
        call_ensures(contained_path, (components,), names),
    ensures
        names is Some <==> leads_below(components@),
        names matches Some(names) ==> names@.len() == names_among(components@).len() && forall|
            i: int,
        |
            0 <= i < names@.len() ==> ((#[trigger] names_among(
                components@,
            )[i]) matches PathComponent::Normal(name) && names@[i]@ == name@),
{
    lemma_names_among(components@);
    if let Some(found) = names {
        assert forall|i: int| 0 <= i < found@.len() implies ((#[trigger] names_among(
            components@,
        )[i]) matches PathComponent::Normal(name) && found@[i]@ == name@) by {
            assert(byte_texts(found@)[i] == normal_names(components@)[i]);
        }
    } else {
        let i = choose|i: int| 0 <= i < components@.len() && !stays_inside(
            #[trigger] components@[i],
        );
        assert(!(components@[i] is Normal) && !(components@[i] is CurDir));
    }
}

/// A file that is archived is named by the names in its path below the directory, with a
/// slash between two of them; a path that leads elsewhere, or nowhere, is refused. Left
/// out are names that are not UTF-8.
pub proof fn law_archived_files_are_named_by_their_path(
    components: &[PathComponent],
    r: Result<String, CoZipError>,
)
    requires
        call_ensures(zip_name_from_relative_path, (components,), r),
        forall|i: int|
            0 <= i < components@.len() ==> (#[trigger] components@[i] matches PathComponent::Normal(
                name,
            ) ==> vstd::utf8::valid_utf8(name@)),
    ensures
        r is Ok <==> leads_below(components@) && names_among(components@).len() > 0,
        r matches Ok(text) ==> exists|parts: Seq<Seq<char>>|
            parts.len() == names_among(components@).len() && text@ == #[trigger] joined_with(
                parts,
                slashes(parts.len() - 1),
            ) && forall|i: int|
                0 <= i < parts.len() ==> ((#[trigger] names_among(
                    components@,
                )[i]) matches PathComponent::Normal(name) && parts[i] == vstd::utf8::decode_utf8(
                    name@,
                )),
{
    let n = components@.len() as int;
    assert(components@.take(n) =~= components@);
    lemma_relative_parts(components@, n);
    if r is Ok {
        let parts = relative_parts(components@, n)->Ok_0;
        lemma_joined_with_slashes(parts);
    }
    if !leads_below(components@) {
        assert(relative_parts(components@, n) is Err);
    }
}

proof fn lemma_relative_parts(components: Seq<PathComponent>, n: int)
    requires
        0 <= n <= components.len(),
        forall|i: int|
            0 <= i < n ==> (#[trigger] components[i] matches PathComponent::Normal(name)
                ==> vstd::utf8::valid_utf8(name@)),
    ensures
        relative_parts(components, n) is Ok <==> leads_below(components.take(n)),
        relative_parts(components, n) matches Ok(parts) ==> parts.len() == names_among(
            components.take(n),
        ).len() && forall|i: int|
            0 <= i < parts.len() ==> ((#[trigger] names_among(
                components.take(n),
            )[i]) matches PathComponent::Normal(name) && parts[i] == vstd::utf8::decode_utf8(name@)),
    decreases n,
{
    reveal(Seq::filter);
    let some = components.take(n);
    if n > 0 {
        let fewer = components.take(n - 1);
        lemma_relative_parts(components, n - 1);
        assert(some.drop_last() =~= fewer);
        assert(some.last() == components[n - 1]);
        assert(leads_below(some) ==> leads_below(fewer)) by {
            if leads_below(some) {
                assert forall|i: int| 0 <= i < fewer.len() implies match #[trigger] fewer[i] {
                    PathComponent::Normal(_) => true,
                    PathComponent::CurDir => true,
                    _ => false,
                } by {
                    assert(some[i] == fewer[i]);
                }
            }
        }
        assert(leads_below(fewer) && (components[n - 1] is Normal || components[n - 1] is CurDir)
            ==> leads_below(some)) by {
            if leads_below(fewer) && (components[n - 1] is Normal || components[n - 1] is CurDir) {
                assert forall|i: int| 0 <= i < some.len() implies match #[trigger] some[i] {
                    PathComponent::Normal(_) => true,
                    PathComponent::CurDir => true,
                    _ => false,
                } by {
                    if i < n - 1 {
                        assert(some[i] == fewer[i]);
                    }
                }
            }
        }
        assert(leads_below(some) ==> components[n - 1] is Normal || components[n - 1] is CurDir)
            by {
            assert(some[n - 1] == components[n - 1]);
        }
    } else {
        assert(some =~= Seq::<PathComponent>::empty());
    }
}

/// A single file is named by the last component of its path, cleaned as any name is; a
/// path without one names nothing.
pub proof fn law_single_files_are_named_by_their_path(
    file_name: Option<&[u8]>,
    style: PathStyle,
    r: Result<String, CoZipError>,
    part: Result<String, CoZipError>,
    text: &str,
    cleaned: Result<String, CoZipError>,
)
    requires
        call_ensures(file_name_from_path, (file_name, style), r),
        file_name matches Some(bytes) ==> call_ensures(zip_name_part_from_os_str, (bytes,), part),
        part matches Ok(name) ==> text@ == name@,
        call_ensures(normalize_zip_entry_name, (text, style), cleaned),
    ensures
        file_name is None ==> r is Err,
        file_name is Some && part is Err ==> r is Err && r->Err_0 == part->Err_0,
        file_name is Some && part is Ok ==> match cleaned {
            Ok(name) => r matches Ok(named) && named@ == name@,
            Err(error) => r == Err::<String, CoZipError>(error),
        },
{
}

} // verus!
