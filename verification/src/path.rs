//! File paths: the text they are spelled by, and the components they stand for.
//!
//! The paths are Unix paths: components are separated by slashes, and by nothing else.
//! The paths of another system are spelled this way before they come here.

use vstd::prelude::*;

verus! {

/// The text of a path.
pub type PathView = Seq<u8>;

/// What a path stands for: the bytes of its components, outermost first.
pub type Parts = Seq<Seq<u8>>;

/// The byte that separates components.
pub const SEPARATOR: u8 = 0x2f;

/// The byte that, alone, names the current directory.
pub const DOT: u8 = 0x2e;

/// The component that starts an absolute path.
pub open spec fn root_part() -> Seq<u8> {
    seq![SEPARATOR]
}

/// The component that names the current directory.
pub open spec fn dot_part() -> Seq<u8> {
    seq![DOT]
}

/// The contents of a list of byte strings.
pub open spec fn rows(v: Seq<Vec<u8>>) -> Seq<Seq<u8>> {
    Seq::new(v.len(), |i: int| v[i]@)
}

/// The pieces of `bytes` between separators; one more than there are separators.
pub open spec fn split(bytes: Seq<u8>) -> Seq<Seq<u8>>
    decreases bytes.len(),
{
    if bytes.len() == 0 {
        seq![Seq::<u8>::empty()]
    } else {
        let before = split(bytes.drop_last());
        if bytes.last() == SEPARATOR {
            before.push(Seq::<u8>::empty())
        } else {
            before.update(before.len() - 1, before.last().push(bytes.last()))
        }
    }
}

/// Whether piece `i` is a component: an empty piece is not, nor is a dot,
/// unless it is the very first piece.
pub open spec fn is_component(pieces: Seq<Seq<u8>>, i: int) -> bool {
    pieces[i].len() > 0 && (pieces[i] == dot_part() ==> i == 0)
}

/// The components among the first `n` pieces.
pub open spec fn components(pieces: Seq<Seq<u8>>, n: nat) -> Parts
    decreases n,
{
    if n == 0 {
        Seq::empty()
    } else {
        let before = components(pieces, (n - 1) as nat);
        if is_component(pieces, n - 1) {
            before.push(pieces[n - 1])
        } else {
            before
        }
    }
}

/// Whether the text of a path makes it absolute.
pub open spec fn starts_at_root(bytes: Seq<u8>) -> bool {
    bytes.len() > 0 && bytes[0] == SEPARATOR
}

/// The components of the path that `bytes` spells.
pub open spec fn parsed(bytes: PathView) -> Parts {
    let parts = components(split(bytes), split(bytes).len());
    if starts_at_root(bytes) {
        seq![root_part()] + parts
    } else {
        parts
    }
}

/// The rows joined by single separators.
pub open spec fn joined(parts: Seq<Seq<u8>>) -> Seq<u8>
    decreases parts.len(),
{
    if parts.len() == 0 {
        Seq::empty()
    } else if parts.len() == 1 {
        parts[0]
    } else {
        joined(parts.drop_last()).push(SEPARATOR) + parts.last()
    }
}

/// Whether the path starts at the root.
pub open spec fn is_absolute(path: Parts) -> bool {
    path.len() > 0 && path[0] == root_part()
}

/// The text of a path in messages.
pub open spec fn shown(path: PathView) -> Seq<char> {
    crate::text::text_of(path)
}

/// Whether every component could have come out of parsing: none is empty or
/// holds a separator, the root comes first if at all, and so does the dot.
pub open spec fn is_clean(path: Parts) -> bool {
    forall|i: int|
        #![trigger path[i]]
        0 <= i < path.len() ==> {
            &&& path[i].len() > 0
            &&& path[i] == dot_part() ==> i == 0
            &&& path[i].contains(SEPARATOR) ==> i == 0 && path[i] == root_part()
        }
}

/// Where `path` leads when taken from `base`: an absolute path leads to itself,
/// and a leading dot adds nothing to a base that is not empty.
pub open spec fn resolved(base: Parts, path: Parts) -> Parts {
    if is_absolute(path) || base.len() == 0 {
        path
    } else if path.len() > 0 && path[0] == dot_part() {
        base + path.skip(1)
    } else {
        base + path
    }
}

/// The directory that holds the last component, where there is one.
pub open spec fn parent_of(path: Parts) -> Option<Parts> {
    if path.len() == 0 || path.last() == root_part() {
        None
    } else {
        Some(path.drop_last())
    }
}

/// What is left of `path` behind `root`, where `root` is a prefix of it.
pub open spec fn stripped(path: Parts, root: Parts) -> Option<Parts> {
    if root.is_prefix_of(path) {
        Some(path.skip(root.len() as int))
    } else {
        None
    }
}

/// The text of the path that `path` leads to from `base`: unless one of them settles it
/// alone, a separator stands between them, if there is none yet.
pub open spec fn pushed(base: PathView, path: PathView) -> PathView {
    if starts_at_root(path) {
        path
    } else if base.len() == 0 || base.last() == SEPARATOR {
        base + path
    } else {
        base.push(SEPARATOR) + path
    }
}

/// The text without separators and dots at its end that count for nothing.
pub open spec fn trimmed(text: PathView) -> PathView
    decreases text.len(),
{
    if text.len() >= 2 && (text.last() == SEPARATOR || (text.last() == DOT && text[text.len() - 2]
        == SEPARATOR)) {
        trimmed(text.drop_last())
    } else {
        text
    }
}

/// Whether the text ends with its last component.
pub open spec fn is_plain(text: PathView) -> bool {
    trimmed(text) == text
}

/// The text without what follows the last separator.
pub open spec fn up_to_separator(text: PathView) -> PathView
    decreases text.len(),
{
    if text.len() == 0 || text.last() == SEPARATOR {
        text
    } else {
        up_to_separator(text.drop_last())
    }
}

/// The text of the directory that holds the last component, where there is one.
pub open spec fn parent_text(text: PathView) -> Option<PathView> {
    let plain = trimmed(text);
    if plain.len() == 0 || plain == root_part() {
        None
    } else {
        Some(trimmed(up_to_separator(plain)))
    }
}

/// How much of the first `n` bytes spells no more than `k` components, up to a separator.
pub open spec fn head_len(text: PathView, k: nat, n: nat) -> nat
    decreases n,
{
    if n == 0 {
        0
    } else if text[n - 1] == SEPARATOR && parsed(text.take(n as int)).len() <= k {
        n
    } else {
        head_len(text, k, (n - 1) as nat)
    }
}

/// The text that is left of `text` behind `root`, where `root` is a prefix of it: from
/// the first component that is left to the end of the last one.
pub open spec fn stripped_text(text: PathView, root: PathView) -> Option<PathView> {
    let plain = trimmed(text);
    let k = parsed(root).len();
    if !parsed(root).is_prefix_of(parsed(text)) {
        None
    } else if k == 0 {
        Some(plain)
    } else if k == parsed(text).len() {
        Some(Seq::empty())
    } else {
        Some(plain.skip(head_len(plain, k, plain.len()) as int))
    }
}

/// A file path, held as its text.
#[derive(Debug)]
pub struct FilePath {
    text: Vec<u8>,
}

impl View for FilePath {
    type V = PathView;

    closed spec fn view(&self) -> PathView {
        self.text@
    }
}

/// Whether two byte strings are the same.
pub fn bytes_equal(a: &[u8], b: &[u8]) -> (r: bool)
    ensures
        r == (a@ == b@),
{
    if a.len() != b.len() {
        return false;
    }
    let mut i: usize = 0;
    while i < a.len()
        invariant
            i <= a.len(),
            a.len() == b.len(),
            forall|j: int| 0 <= j < i ==> a@[j] == b@[j],
        decreases a.len() - i,
    {
        if a[i] != b[i] {
            return false;
        }
        i += 1;
    }
    assert(a@ =~= b@);
    true
}

/// A copy of a byte string.
pub fn copy_bytes(bytes: &[u8]) -> (r: Vec<u8>)
    ensures
        r@ == bytes@,
{
    vstd::slice::slice_to_vec(bytes)
}

/// The pieces of `bytes` between separators.
fn split_pieces(bytes: &[u8]) -> (pieces: Vec<Vec<u8>>)
    ensures
        rows(pieces@) == split(bytes@),
        pieces@.len() > 0,
{
    let mut done: Vec<Vec<u8>> = Vec::new();
    let mut current: Vec<u8> = Vec::new();
    let mut i: usize = 0;
    proof {
        assert(bytes@.take(0) =~= Seq::<u8>::empty());
        assert(rows(done@).push(current@) =~= split(bytes@.take(0)));
    }
    while i < bytes.len()
        invariant
            i <= bytes.len(),
            rows(done@).push(current@) == split(bytes@.take(i as int)),
        decreases bytes.len() - i,
    {
        let b = bytes[i];
        let ghost before = rows(done@).push(current@);
        proof {
            assert(bytes@.take(i + 1).drop_last() =~= bytes@.take(i as int));
            assert(bytes@.take(i + 1).last() == b);
        }
        if b == SEPARATOR {
            let ghost piece = current@;
            let ghost old_done = done@;
            done.push(current);
            current = Vec::new();
            assert(rows(done@) =~= rows(old_done).push(piece));
        } else {
            current.push(b);
            assert(rows(done@).push(current@) =~= before.update(
                before.len() - 1,
                before.last().push(b),
            ));
        }
        i += 1;
    }
    assert(bytes@.take(bytes@.len() as int) =~= bytes@);
    let ghost old_done = done@;
    let ghost piece = current@;
    done.push(current);
    assert(rows(done@) =~= rows(old_done).push(piece));
    done
}

/// The components of the path that `bytes` spells.
fn parse(bytes: &[u8]) -> (r: Vec<Vec<u8>>)
    ensures
        rows(r@) == parsed(bytes@),
{
    let pieces = split_pieces(bytes);
    let ghost s = split(bytes@);
    let mut parts: Vec<Vec<u8>> = Vec::new();
    let ghost mut start: Parts = Seq::empty();
    if bytes.len() > 0 && bytes[0] == SEPARATOR {
        let mut root: Vec<u8> = Vec::new();
        root.push(SEPARATOR);
        parts.push(root);
        proof {
            start = seq![root_part()];
            assert(root@ =~= root_part());
            assert(rows(parts@) =~= start);
        }
    }
    let mut i: usize = 0;
    assert(rows(parts@) =~= start + components(s, 0));
    while i < pieces.len()
        invariant
            i <= pieces.len(),
            s == rows(pieces@),
            rows(parts@) == start + components(s, i as nat),
        decreases pieces.len() - i,
    {
        let piece = &pieces[i];
        let dot = piece.len() == 1 && piece[0] == DOT;
        proof {
            assert(s[i as int] == piece@);
            assert(dot <==> piece@ =~= dot_part());
        }
        let ghost before = parts@;
        if piece.len() > 0 && (!dot || i == 0) {
            let copy = copy_bytes(piece.as_slice());
            parts.push(copy);
            assert(rows(parts@) =~= rows(before).push(piece@));
        }
        i += 1;
        assert(rows(parts@) =~= start + components(s, i as nat));
    }
    assert(rows(parts@) =~= parsed(bytes@));
    parts
}

/// Drops the separators and dots at the end that count for nothing.
fn trim(text: Vec<u8>) -> (r: Vec<u8>)
    ensures
        r@ == trimmed(text@),
{
    let ghost whole = text@;
    let mut text = text;
    while text.len() >= 2 && (text[text.len() - 1] == SEPARATOR || (text[text.len() - 1] == DOT
        && text[text.len() - 2] == SEPARATOR))
        invariant
            trimmed(text@) == trimmed(whole),
        decreases text@.len(),
    {
        let ghost before = text@;
        text.pop();
        assert(text@ =~= before.drop_last());
    }
    text
}

impl Clone for FilePath {
    fn clone(&self) -> (r: FilePath)
        ensures
            r@ == self@,
    {
        FilePath { text: copy_bytes(self.text.as_slice()) }
    }
}

impl FilePath {
    /// The path that the bytes spell.
    pub fn from_bytes(text: &[u8]) -> (r: FilePath)
        ensures
            r@ == text@,
    {
        FilePath { text: copy_bytes(text) }
    }

    /// The text of the path.
    pub fn as_bytes(&self) -> (r: &[u8])
        ensures
            r@ == self@,
    {
        self.text.as_slice()
    }

    /// The components, outermost first; the root is the component `/`. Repeated and
    /// trailing separators count for nothing, nor does a dot, unless it comes first.
    pub fn components(&self) -> (r: Vec<Vec<u8>>)
        ensures
            rows(r@) == parsed(self@),
    {
        parse(self.text.as_slice())
    }

    /// Whether the path starts at the root.
    pub fn is_absolute(&self) -> (r: bool)
        ensures
            r == starts_at_root(self@),
            r == (self@.len() > 0 && self@[0] == 0x2f),
    {
        self.text.len() > 0 && self.text[0] == SEPARATOR
    }

    /// Whether the path has no text.
    pub fn is_empty(&self) -> (r: bool)
        ensures
            r == (self@.len() == 0),
    {
        self.text.len() == 0
    }

    /// The path that `path` leads to from this one.
    pub fn join(&self, path: &FilePath) -> (r: FilePath)
        ensures
            r@ == pushed(self@, path@),
            path@.len() > 0 && path@[0] == 0x2f ==> r@ == path@,
            !(path@.len() > 0 && path@[0] == 0x2f) ==> {
                &&& self@.len() == 0 ==> r@ == path@
                &&& self@.len() > 0 && self@.last() == 0x2f ==> r@ == self@ + path@
                &&& self@.len() > 0 && self@.last() != 0x2f ==> r@ == self@ + seq![0x2fu8] + path@
            },
    {
        proof {
            lemma_pushed(self@, path@);
        }
        if path.is_absolute() {
            return path.clone();
        }
        let mut text = copy_bytes(self.text.as_slice());
        if text.len() > 0 && text[text.len() - 1] != SEPARATOR {
            text.push(SEPARATOR);
        }
        let mut rest = copy_bytes(path.text.as_slice());
        text.append(&mut rest);
        assert(text@ =~= pushed(self@, path@));
        FilePath { text }
    }

    /// The directory that holds the last component; `None` for the root and for the
    /// empty path.
    pub fn parent(&self) -> (r: Option<FilePath>)
        ensures
            match r {
                Some(dir) => {
                    &&& parent_text(self@) == Some(dir@)
                    &&& parent_of(parsed(self@)) == Some(parsed(dir@))
                },
                None => parent_text(self@) is None && parent_of(parsed(self@)) is None,
            },
    {
        proof {
            lemma_parsed_parent(self@);
        }
        let mut text = trim(copy_bytes(self.text.as_slice()));
        let ghost plain = text@;
        if text.len() == 0 {
            return None;
        }
        if text.len() == 1 && text[0] == SEPARATOR {
            assert(plain =~= root_part());
            return None;
        }
        assert(plain != root_part());
        while text.len() > 0 && text[text.len() - 1] != SEPARATOR
            invariant
                up_to_separator(text@) == up_to_separator(plain),
            decreases text@.len(),
        {
            let ghost before = text@;
            text.pop();
            assert(text@ =~= before.drop_last());
        }
        Some(FilePath { text: trim(text) })
    }

    /// What is left behind `root`; `None` where `root` is no prefix of the path.
    pub fn strip_prefix(&self, root: &FilePath) -> (r: Option<FilePath>)
        ensures
            match r {
                Some(rest) => {
                    &&& stripped_text(self@, root@) == Some(rest@)
                    &&& stripped(parsed(self@), parsed(root@)) == Some(parsed(rest@))
                },
                None => {
                    &&& stripped_text(self@, root@) is None
                    &&& stripped(parsed(self@), parsed(root@)) is None
                },
            },
    {
        proof {
            lemma_parsed_stripped(self@, root@);
        }
        let parts = self.components();
        let front = root.components();
        let ghost whole = parsed(self@);
        let ghost head = parsed(root@);
        if front.len() > parts.len() {
            return None;
        }
        let mut i: usize = 0;
        while i < front.len()
            invariant
                i <= front.len() <= parts.len(),
                whole == parsed(self@),
                head == parsed(root@),
                whole == rows(parts@),
                head == rows(front@),
                forall|j: int| 0 <= j < i ==> whole[j] == head[j],
            decreases front.len() - i,
        {
            if !bytes_equal(front[i].as_slice(), parts[i].as_slice()) {
                proof {
                    if head.is_prefix_of(whole) {
                        assert(head[i as int] == whole.subrange(0, head.len() as int)[i as int]);
                    }
                }
                return None;
            }
            assert(head[i as int] == whole[i as int]);
            i += 1;
        }
        assert(head.is_prefix_of(whole)) by {
            assert(head =~= whole.take(head.len() as int));
        }
        let text = trim(copy_bytes(self.text.as_slice()));
        if front.len() == 0 {
            return Some(FilePath { text });
        }
        if front.len() == parts.len() {
            let none: Vec<u8> = Vec::new();
            assert(none@ =~= Seq::empty());
            return Some(FilePath { text: none });
        }
        let mut n: usize = text.len();
        while n > 0 && !(text[n - 1] == SEPARATOR && parse(
            vstd::slice::slice_subrange(text.as_slice(), 0, n),
        ).len() <= front.len())
            invariant
                n <= text@.len(),
                head == rows(front@),
                head_len(text@, head.len(), n as nat) == head_len(
                    text@,
                    head.len(),
                    text@.len(),
                ),
            decreases n,
        {
            assert(text@.take(n as int) =~= text@.subrange(0, n as int));
            n -= 1;
        }
        proof {
            if n > 0 {
                assert(text@.take(n as int) =~= text@.subrange(0, n as int));
            }
        }
        let rest = copy_bytes(vstd::slice::slice_subrange(text.as_slice(), n, text.len()));
        assert(rest@ =~= text@.skip(n as int));
        Some(FilePath { text: rest })
    }

    /// The text of the path for messages.
    pub fn display(&self) -> (r: String)
        ensures
            r@ == shown(self@),
            vstd::utf8::valid_utf8(self@) ==> r@ == vstd::utf8::decode_utf8(self@),
            !vstd::utf8::valid_utf8(self@) ==> r@ == crate::text::replaced_text(self@),
    {
        crate::text::utf8_lossy(self.text.as_slice())
    }
}

/// There is always at least one piece, and no piece holds a separator.
proof fn lemma_split_pieces(bytes: Seq<u8>)
    ensures
        split(bytes).len() >= 1,
        forall|i: int|
            0 <= i < split(bytes).len() ==> !(#[trigger] split(bytes)[i]).contains(SEPARATOR),
    decreases bytes.len(),
{
    if bytes.len() > 0 {
        lemma_split_pieces(bytes.drop_last());
        let before = split(bytes.drop_last());
        if bytes.last() != SEPARATOR {
            let last = before.last();
            let piece = last.push(bytes.last());
            assert(!last.contains(SEPARATOR));
            assert forall|j: int| 0 <= j < piece.len() implies piece[j] != SEPARATOR by {
                if j < last.len() {
                    assert(piece[j] == last[j]);
                    assert(last.contains(last[j]));
                }
            }
        }
    }
}

/// Bytes without a separator only lengthen the last piece.
proof fn lemma_split_extend(bytes: Seq<u8>, tail: Seq<u8>)
    requires
        !tail.contains(SEPARATOR),
    ensures
        split(bytes + tail) == split(bytes).update(
            split(bytes).len() - 1,
            split(bytes).last() + tail,
        ),
    decreases tail.len(),
{
    lemma_split_pieces(bytes);
    let before = split(bytes);
    if tail.len() == 0 {
        assert(bytes + tail =~= bytes);
        assert(before.last() + tail =~= before.last());
        assert(before.update(before.len() - 1, before.last()) =~= before);
    } else {
        let front = tail.drop_last();
        assert forall|j: int| 0 <= j < front.len() implies front[j] != SEPARATOR by {
            assert(tail.contains(tail[j]));
        }
        lemma_split_extend(bytes, front);
        assert(tail.contains(tail.last()));
        assert((bytes + tail).drop_last() =~= bytes + front);
        assert((before.last() + front).push(tail.last()) =~= before.last() + tail);
        assert(split(bytes + tail) =~= before.update(before.len() - 1, before.last() + tail));
    }
}

/// Splitting undoes joining.
proof fn lemma_split_joined(parts: Seq<Seq<u8>>)
    requires
        parts.len() > 0,
        forall|i: int| 0 <= i < parts.len() ==> !(#[trigger] parts[i]).contains(SEPARATOR),
    ensures
        split(joined(parts)) == parts,
    decreases parts.len(),
{
    let empty = Seq::<u8>::empty();
    if parts.len() == 1 {
        lemma_split_extend(empty, parts[0]);
        assert(empty + parts[0] =~= parts[0]);
        assert(split(empty) =~= seq![empty]);
        assert(split(joined(parts)) =~= parts);
    } else {
        let front = parts.drop_last();
        lemma_split_joined(front);
        let b = joined(front).push(SEPARATOR);
        assert(b.drop_last() =~= joined(front));
        assert(split(b) =~= front.push(empty));
        lemma_split_extend(b, parts.last());
        assert(empty + parts.last() =~= parts.last());
        assert(split(joined(parts)) =~= parts);
    }
}

/// A separator in front adds an empty piece in front.
proof fn lemma_split_leading(bytes: Seq<u8>)
    ensures
        split(seq![SEPARATOR] + bytes) == seq![Seq::<u8>::empty()] + split(bytes),
    decreases bytes.len(),
{
    let empty = Seq::<u8>::empty();
    let b = seq![SEPARATOR] + bytes;
    lemma_split_pieces(bytes);
    if bytes.len() == 0 {
        assert(b.drop_last() =~= empty);
        assert(b.last() == SEPARATOR);
        assert(split(empty) =~= seq![empty]);
        assert(split(b) =~= seq![empty] + split(bytes));
    } else {
        let front = bytes.drop_last();
        lemma_split_leading(front);
        lemma_split_pieces(front);
        assert(b.drop_last() =~= seq![SEPARATOR] + front);
        assert(b.last() == bytes.last());
        assert(split(b) =~= seq![empty] + split(bytes));
    }
}

/// Pieces of which the first `lo` are no components and the others are.
proof fn lemma_components_from(pieces: Seq<Seq<u8>>, lo: nat, n: nat)
    requires
        lo <= n <= pieces.len(),
        forall|i: int| 0 <= i < lo ==> !is_component(pieces, i),
        forall|i: int| lo <= i < n ==> is_component(pieces, i),
    ensures
        components(pieces, n) == pieces.subrange(lo as int, n as int),
    decreases n,
{
    if n == 0 {
        assert(pieces.subrange(0, 0) =~= Seq::<Seq<u8>>::empty());
    } else if n == lo {
        lemma_components_none(pieces, n);
        assert(pieces.subrange(lo as int, n as int) =~= Seq::<Seq<u8>>::empty());
    } else {
        lemma_components_from(pieces, lo, (n - 1) as nat);
        assert(pieces.subrange(lo as int, n as int) =~= pieces.subrange(
            lo as int,
            n - 1,
        ).push(pieces[n - 1]));
    }
}

proof fn lemma_components_none(pieces: Seq<Seq<u8>>, n: nat)
    requires
        n <= pieces.len(),
        forall|i: int| 0 <= i < n ==> !is_component(pieces, i),
    ensures
        components(pieces, n) == Seq::<Seq<u8>>::empty(),
    decreases n,
{
    if n > 0 {
        lemma_components_none(pieces, (n - 1) as nat);
    }
}

/// Joined rows begin with the first row.
proof fn lemma_joined_first(parts: Seq<Seq<u8>>)
    requires
        parts.len() > 0,
        parts[0].len() > 0,
    ensures
        joined(parts).len() > 0,
        joined(parts)[0] == parts[0][0],
    decreases parts.len(),
{
    if parts.len() > 1 {
        lemma_joined_first(parts.drop_last());
    }
}

/// Components joined by separators, the root among them, read back as they were.
pub proof fn lemma_parsed_joined(path: Parts)
    requires
        is_clean(path),
    ensures
        parsed(joined(path)) == path,
{
    let b = joined(path);
    let empty = Seq::<u8>::empty();
    if path.len() == 0 {
        assert(split(b) =~= seq![empty]);
        lemma_components_none(split(b), 1);
    } else if is_absolute(path) {
        let rest = path.skip(1);
        assert(path[0] == root_part());
        assert(path =~= seq![root_part()] + rest);
        assert forall|i: int| 0 <= i < rest.len() implies !(#[trigger] rest[i]).contains(SEPARATOR)
            && rest[i].len() > 0 && rest[i] != dot_part() by {
            assert(rest[i] == path[i + 1]);
        }
        if rest.len() == 0 {
            assert(b == root_part());
            lemma_split_leading(empty);
            assert(seq![SEPARATOR] + empty =~= b);
            assert(split(empty) =~= seq![empty]);
            assert(split(b) =~= seq![empty, empty]);
            lemma_components_none(split(b), 2);
        } else {
            lemma_joined_root(path);
            lemma_split_joined(rest);
            lemma_split_leading(joined(rest));
            lemma_split_leading(seq![SEPARATOR] + joined(rest));
            let pieces = split(b);
            assert(pieces =~= seq![empty, empty] + rest);
            assert forall|i: int| 2 <= i < pieces.len() implies is_component(pieces, i) by {
                assert(pieces[i] == rest[i - 2]);
            }
            lemma_components_from(pieces, 2, pieces.len());
            assert(pieces.subrange(2, pieces.len() as int) =~= rest);
        }
        assert(parsed(b) =~= path);
    } else {
        assert forall|i: int| 0 <= i < path.len() implies !(#[trigger] path[i]).contains(
            SEPARATOR,
        ) by {
            if path[i].contains(SEPARATOR) {
                assert(path[0] == root_part());
            }
        }
        lemma_split_joined(path);
        lemma_joined_first(path);
        assert(path[0].contains(path[0][0]));
        assert forall|i: int| 0 <= i < path.len() implies is_component(path, i) by {
            assert(path[i].len() > 0);
        }
        lemma_components_from(path, 0, path.len());
        assert(path.subrange(0, path.len() as int) =~= path);
    }
}

/// With the root in front, joining yields two separators in front.
proof fn lemma_joined_root(path: Parts)
    requires
        path.len() > 1,
        path[0] == root_part(),
    ensures
        joined(path) == seq![SEPARATOR] + (seq![SEPARATOR] + joined(path.skip(1))),
    decreases path.len(),
{
    let rest = path.skip(1);
    if path.len() == 2 {
        assert(path.drop_last() =~= seq![root_part()]);
        assert(joined(path.drop_last()) == root_part());
        assert(joined(path) =~= seq![SEPARATOR] + (seq![SEPARATOR] + joined(rest)));
    } else {
        lemma_joined_root(path.drop_last());
        assert(path.drop_last().skip(1) =~= rest.drop_last());
        assert(joined(path) =~= seq![SEPARATOR] + (seq![SEPARATOR] + joined(rest)));
    }
}

/// Whatever is read is a clean path.
pub proof fn lemma_parsed_is_clean(bytes: Seq<u8>)
    ensures
        is_clean(parsed(bytes)),
{
    lemma_split_pieces(bytes);
    let pieces = split(bytes);
    let parts = components(pieces, pieces.len());
    lemma_components_members(pieces, pieces.len());
    let path = parsed(bytes);
    if starts_at_root(bytes) {
        let rest = bytes.skip(1);
        assert(bytes =~= seq![SEPARATOR] + rest);
        lemma_split_leading(rest);
        assert(pieces[0].len() == 0);
        assert forall|i: int| #![trigger path[i]] 0 <= i < path.len() implies {
            &&& path[i].len() > 0
            &&& path[i] == dot_part() ==> i == 0
            &&& path[i].contains(SEPARATOR) ==> i == 0 && path[i] == root_part()
        } by {
            if i > 0 {
                assert(path[i] == parts[i - 1]);
            }
        }
    }
}

/// Every component is a piece that counts, and only the first can be a dot.
proof fn lemma_components_members(pieces: Seq<Seq<u8>>, n: nat)
    requires
        n <= pieces.len(),
        forall|i: int| 0 <= i < pieces.len() ==> !(#[trigger] pieces[i]).contains(SEPARATOR),
    ensures
        forall|i: int|
            #![trigger components(pieces, n)[i]]
            0 <= i < components(pieces, n).len() ==> {
                &&& components(pieces, n)[i].len() > 0
                &&& components(pieces, n)[i] == dot_part() ==> i == 0 && pieces[0] == dot_part()
                &&& !components(pieces, n)[i].contains(SEPARATOR)
            },
        n == 1 ==> components(pieces, n).len() <= 1,
        n == 0 ==> components(pieces, n).len() == 0,
    decreases n,
{
    if n > 0 {
        lemma_components_members(pieces, (n - 1) as nat);
        let before = components(pieces, (n - 1) as nat);
        let after = components(pieces, n);
        assert forall|i: int| #![trigger after[i]] 0 <= i < after.len() implies {
            &&& after[i].len() > 0
            &&& after[i] == dot_part() ==> i == 0 && pieces[0] == dot_part()
            &&& !after[i].contains(SEPARATOR)
        } by {
            if i < before.len() {
                assert(after[i] == before[i]);
            } else {
                assert(after[i] == pieces[n - 1]);
            }
        }
    }
}

/// Components of the first pieces depend on those pieces alone.
proof fn lemma_components_prefix(a: Seq<Seq<u8>>, b: Seq<Seq<u8>>, n: nat)
    requires
        n <= a.len(),
        n <= b.len(),
        forall|i: int| 0 <= i < n ==> #[trigger] a[i] == b[i],
    ensures
        components(a, n) == components(b, n),
    decreases n,
{
    if n > 0 {
        lemma_components_prefix(a, b, (n - 1) as nat);
    }
}

/// A separator at the end counts for nothing, unless it is all there is.
pub proof fn lemma_parsed_separator(text: PathView)
    ensures
        parsed(text.push(SEPARATOR)) == (if text.len() == 0 {
            seq![root_part()]
        } else {
            parsed(text)
        }),
{
    let longer = text.push(SEPARATOR);
    let pieces = split(text);
    lemma_split_pieces(text);
    assert(longer.drop_last() =~= text);
    assert(split(longer) =~= pieces.push(Seq::empty()));
    lemma_components_prefix(split(longer), pieces, pieces.len());
    assert(components(split(longer), split(longer).len()) == components(pieces, pieces.len()));
    if text.len() == 0 {
        assert(pieces =~= seq![Seq::<u8>::empty()]);
        lemma_components_none(pieces, 1);
        assert(parsed(longer) =~= seq![root_part()]);
    } else {
        assert(longer[0] == text[0]);
    }
}

/// Bytes without a separator, behind one or alone, are one more component or, if there
/// are none or if they are a dot that does not come first, none.
pub proof fn lemma_parsed_last(text: PathView, last: Seq<u8>)
    requires
        text.len() == 0 || text.last() == SEPARATOR,
        !last.contains(SEPARATOR),
    ensures
        parsed(text + last) == (if last.len() == 0 || (last == dot_part() && text.len() > 0) {
            parsed(text)
        } else {
            parsed(text).push(last)
        }),
{
    let pieces = split(text);
    let n = (pieces.len() - 1) as nat;
    let longer = split(text + last);
    lemma_split_pieces(text);
    lemma_split_extend(text, last);
    assert(pieces.last() =~= Seq::empty());
    assert(pieces.last() + last =~= last);
    assert(longer =~= pieces.update(n as int, last));
    lemma_components_prefix(longer, pieces, n);
    assert(components(pieces, n + 1) == components(pieces, n));
    if text.len() == 0 {
        assert(text + last =~= last);
        if last.len() > 0 {
            assert(last.contains(last[0]));
        }
        assert(pieces =~= seq![Seq::<u8>::empty()]);
        assert(parsed(text + last) =~= components(longer, n + 1));
    } else {
        assert((text + last)[0] == text[0]);
        assert(text.drop_last().push(SEPARATOR) =~= text);
        lemma_split_pieces(text.drop_last());
        assert(pieces =~= split(text.drop_last()).push(Seq::empty()));
        assert(n > 0);
        if last.len() == 0 || last == dot_part() {
            assert(!is_component(longer, n as int));
        } else {
            assert(is_component(longer, n as int));
            assert(parsed(text + last) =~= parsed(text).push(last));
        }
    }
}

/// What counts for nothing at the end can be dropped.
pub proof fn lemma_parsed_trimmed(text: PathView)
    ensures
        parsed(trimmed(text)) == parsed(text),
        text.len() > 0 ==> trimmed(text).len() > 0,
    decreases text.len(),
{
    if text.len() >= 2 {
        let front = text.drop_last();
        if text.last() == SEPARATOR {
            assert(front.push(SEPARATOR) =~= text);
            lemma_parsed_separator(front);
            lemma_parsed_trimmed(front);
        } else if text.last() == DOT && text[text.len() - 2] == SEPARATOR {
            assert(front.last() == SEPARATOR);
            assert(front + dot_part() =~= text);
            assert(!dot_part().contains(SEPARATOR));
            lemma_parsed_last(front, dot_part());
            lemma_parsed_trimmed(front);
        }
    }
}

/// Where the last separator parts a text.
proof fn lemma_up_to_separator(text: PathView)
    ensures
        ({
            let front = up_to_separator(text);
            let last = text.skip(front.len() as int);
            &&& front.len() <= text.len()
            &&& text == front + last
            &&& front.len() == 0 || front.last() == SEPARATOR
            &&& !last.contains(SEPARATOR)
        }),
    decreases text.len(),
{
    let front = up_to_separator(text);
    let last = text.skip(front.len() as int);
    if text.len() == 0 || text.last() == SEPARATOR {
        assert(text =~= front + last);
    } else {
        let shorter = text.drop_last();
        lemma_up_to_separator(shorter);
        let before = shorter.skip(front.len() as int);
        assert(text =~= shorter.push(text.last()));
        assert(last =~= before.push(text.last()));
        assert(text =~= (front + before).push(text.last()));
        assert(text =~= front + last);
        assert forall|j: int| 0 <= j < last.len() implies last[j] != SEPARATOR by {
            if j < before.len() {
                assert(before.contains(before[j]));
                assert(last[j] == before[j]);
            }
        }
    }
}

/// A plain text that is neither empty nor the root is a last component behind the rest.
proof fn lemma_plain_last(text: PathView)
    requires
        is_plain(text),
        text.len() > 0,
        text != root_part(),
    ensures
        ({
            let front = up_to_separator(text);
            let last = text.skip(front.len() as int);
            &&& last.len() > 0
            &&& last == dot_part() ==> front.len() == 0
            &&& parsed(text) == parsed(front).push(last)
        }),
{
    let front = up_to_separator(text);
    let last = text.skip(front.len() as int);
    lemma_up_to_separator(text);
    lemma_trimmed_len(text);
    if last.len() == 0 {
        assert(front =~= text);
        if text.len() == 1 {
            assert(text =~= root_part());
        } else {
            lemma_trimmed_len(text.drop_last());
        }
    }
    if last == dot_part() && front.len() > 0 {
        assert(text.last() == last[0]);
        assert(text[text.len() - 2] == front.last());
        lemma_trimmed_len(text.drop_last());
    }
    lemma_parsed_last(front, last);
}

/// Trimming takes away from the end alone, and all that it can.
pub proof fn lemma_trimmed_len(text: PathView)
    ensures
        trimmed(text).len() <= text.len(),
        trimmed(text) == text.take(trimmed(text).len() as int),
        is_plain(trimmed(text)),
    decreases text.len(),
{
    if text.len() >= 2 && (text.last() == SEPARATOR || (text.last() == DOT && text[text.len() - 2]
        == SEPARATOR)) {
        lemma_trimmed_len(text.drop_last());
        assert(text.take(trimmed(text).len() as int) =~= text.drop_last().take(
            trimmed(text).len() as int,
        ));
    } else {
        assert(text =~= text.take(text.len() as int));
    }
}

/// The parent of a path, taken from its text, is the path without its last component.
pub proof fn lemma_parsed_parent(text: PathView)
    ensures
        match parent_text(text) {
            Some(dir) => parent_of(parsed(text)) == Some(parsed(dir)),
            None => parent_of(parsed(text)) is None,
        },
{
    let plain = trimmed(text);
    lemma_parsed_trimmed(text);
    lemma_trimmed_len(text);
    if plain.len() == 0 {
        assert(plain =~= Seq::empty());
        assert(split(plain) =~= seq![Seq::<u8>::empty()]);
        lemma_components_none(split(plain), 1);
    } else if plain == root_part() {
        assert(plain =~= Seq::empty().push(SEPARATOR));
        lemma_parsed_separator(Seq::empty());
    } else {
        let front = up_to_separator(plain);
        let last = plain.skip(front.len() as int);
        lemma_up_to_separator(plain);
        lemma_plain_last(plain);
        lemma_parsed_trimmed(front);
        assert(last != root_part()) by {
            assert(root_part().contains(root_part()[0]));
        }
        assert(parsed(plain).drop_last() =~= parsed(front));
    }
}

/// Text behind a separator splits on its own.
proof fn lemma_split_concat(front: PathView, rest: PathView)
    requires
        front.len() > 0,
        front.last() == SEPARATOR,
    ensures
        split(front + rest) == split(front).drop_last() + split(rest),
    decreases rest.len(),
{
    lemma_split_pieces(front);
    lemma_split_pieces(rest);
    let a = split(front).drop_last();
    if rest.len() == 0 {
        assert(front + rest =~= front);
        assert(split(rest) =~= seq![Seq::<u8>::empty()]);
        assert(split(front).last() =~= Seq::empty());
        assert(split(front) =~= a + split(rest));
    } else {
        let shorter = rest.drop_last();
        lemma_split_concat(front, shorter);
        lemma_split_pieces(shorter);
        assert((front + rest).drop_last() =~= front + shorter);
        assert((front + rest).last() == rest.last());
        assert(split(front + rest) =~= a + split(rest));
    }
}

/// The components without a dot in front.
pub open spec fn undotted(path: Parts) -> Parts {
    if path.len() > 0 && path[0] == dot_part() {
        path.skip(1)
    } else {
        path
    }
}

/// Behind other pieces, pieces are the components that they are alone, but for a dot.
proof fn lemma_components_concat(a: Seq<Seq<u8>>, b: Seq<Seq<u8>>, m: nat)
    requires
        a.len() > 0,
        m <= b.len(),
        forall|i: int| 0 <= i < b.len() ==> !(#[trigger] b[i]).contains(SEPARATOR),
    ensures
        components(a + b, a.len() + m) == components(a, a.len()) + undotted(components(b, m)),
        m > 0 && b[0] == dot_part() ==> components(b, m).len() > 0 && components(b, m)[0]
            == dot_part(),
    decreases m,
{
    if m == 0 {
        lemma_components_prefix(a + b, a, a.len());
        assert(components(a, a.len()) + undotted(components(b, 0)) =~= components(a, a.len()));
    } else {
        let k = (m - 1) as nat;
        lemma_components_concat(a, b, k);
        lemma_components_members(b, k);
        lemma_components_members(b, m);
        assert((a + b)[a.len() as int + k] == b[k as int]);
        let (before, after) = (components(b, k), components(b, m));
        if is_component(b, k as int) {
            if k == 0 {
                assert(before =~= Seq::empty());
                assert(after =~= seq![b[0]]);
                if b[0] == dot_part() {
                    assert(undotted(after) =~= Seq::empty());
                }
            } else {
                assert(b[k as int] != dot_part());
                assert(undotted(after) =~= undotted(before).push(b[k as int]));
            }
        }
        assert(components(a + b, a.len() + m) =~= components(a, a.len()) + undotted(after));
    }
}

/// Text behind a separator adds its components, but for a dot in front.
proof fn lemma_parsed_concat(front: PathView, rest: PathView)
    requires
        front.len() > 0,
        front.last() == SEPARATOR,
        !starts_at_root(rest),
    ensures
        parsed(front + rest) == parsed(front) + undotted(parsed(rest)),
{
    let pieces = split(front);
    let a = pieces.drop_last();
    let b = split(rest);
    lemma_split_pieces(front);
    lemma_split_pieces(rest);
    lemma_split_pieces(front.drop_last());
    assert(pieces =~= split(front.drop_last()).push(Seq::empty()));
    lemma_split_concat(front, rest);
    lemma_components_concat(a, b, b.len());
    lemma_components_prefix(a, pieces, a.len());
    assert(components(pieces, pieces.len()) == components(pieces, a.len()));
    assert((front + rest)[0] == front[0]);
    assert(parsed(front + rest) =~= parsed(front) + undotted(parsed(rest)));
}

/// A text spells no components only if it is empty.
pub proof fn lemma_parsed_some(text: PathView)
    ensures
        parsed(text).len() == 0 <==> text.len() == 0,
{
    if text.len() == 0 {
        assert(split(text) =~= seq![Seq::<u8>::empty()]);
        lemma_components_none(split(text), 1);
    } else {
        let plain = trimmed(text);
        lemma_parsed_trimmed(text);
        lemma_trimmed_len(text);
        if plain == root_part() {
            assert(plain =~= Seq::empty().push(SEPARATOR));
            lemma_parsed_separator(Seq::empty());
        } else {
            lemma_plain_last(plain);
        }
    }
}

/// A dot alone is a component.
pub proof fn lemma_parsed_dot()
    ensures
        parsed(dot_part()) == seq![dot_part()],
{
    let empty = Seq::<u8>::empty();
    assert(!dot_part().contains(SEPARATOR));
    lemma_parsed_last(empty, dot_part());
    lemma_parsed_some(empty);
    assert(empty + dot_part() =~= dot_part());
    assert(parsed(dot_part()) =~= seq![dot_part()]);
}

/// Components that are neither empty nor dots are joined to a plain text.
pub proof fn lemma_joined_is_plain(path: Parts)
    requires
        forall|i: int|
            #![trigger path[i]]
            0 <= i < path.len() ==> path[i].len() > 0 && path[i] != dot_part()
                && !path[i].contains(SEPARATOR),
    ensures
        is_plain(joined(path)),
{
    if path.len() > 0 {
        let text = joined(path);
        let last = path[path.len() - 1];
        let n = last.len() as int;
        assert(last.contains(last[n - 1]));
        assert(text.last() == last[n - 1]);
        if text.len() >= 2 && text.last() == DOT && text[text.len() - 2] == SEPARATOR {
            if n == 1 {
                assert(last =~= dot_part());
            } else {
                assert(last.contains(last[n - 2]));
            }
        }
    }
}

/// A path is absolute if its text starts with a separator.
pub proof fn lemma_parsed_absolute(text: PathView)
    ensures
        is_absolute(parsed(text)) <==> starts_at_root(text),
{
    lemma_split_pieces(text);
    lemma_components_members(split(text), split(text).len());
    if !starts_at_root(text) && is_absolute(parsed(text)) {
        assert(root_part().contains(root_part()[0]));
        assert(!parsed(text)[0].contains(SEPARATOR));
    }
}

/// Joining texts joins what they stand for.
pub proof fn lemma_parsed_pushed(base: PathView, path: PathView)
    ensures
        parsed(pushed(base, path)) == resolved(parsed(base), parsed(path)),
{
    lemma_parsed_absolute(path);
    lemma_parsed_some(base);
    if !starts_at_root(path) && base.len() > 0 {
        if base.last() == SEPARATOR {
            lemma_parsed_concat(base, path);
        } else {
            lemma_parsed_separator(base);
            lemma_parsed_concat(base.push(SEPARATOR), path);
        }
        assert(parsed(pushed(base, path)) =~= resolved(parsed(base), parsed(path)));
    } else if base.len() == 0 {
        assert(base + path =~= path);
    }
}

/// The longest head is one, and nothing longer is.
proof fn lemma_head_len(text: PathView, k: nat, n: nat)
    requires
        n <= text.len(),
    ensures
        ({
            let m = head_len(text, k, n);
            &&& m <= n
            &&& m > 0 ==> text[m - 1] == SEPARATOR && parsed(text.take(m as int)).len() <= k
            &&& forall|i: int|
                m < i <= n && text[i - 1] == SEPARATOR ==> parsed(#[trigger] text.take(i)).len()
                    > k
        }),
    decreases n,
{
    if n > 0 && !(text[n - 1] == SEPARATOR && parsed(text.take(n as int)).len() <= k) {
        lemma_head_len(text, k, (n - 1) as nat);
    }
}

/// Where the first separator parts a text, or its end if there is none.
spec fn first_end(text: PathView) -> nat
    decreases text.len(),
{
    if text.len() == 0 || text[0] == SEPARATOR {
        0
    } else {
        1 + first_end(text.skip(1))
    }
}

proof fn lemma_first_end(text: PathView)
    ensures
        first_end(text) <= text.len(),
        first_end(text) < text.len() ==> text[first_end(text) as int] == SEPARATOR,
        !text.take(first_end(text) as int).contains(SEPARATOR),
    decreases text.len(),
{
    if text.len() > 0 && text[0] != SEPARATOR {
        let rest = text.skip(1);
        lemma_first_end(rest);
        let first = text.take(first_end(text) as int);
        assert forall|j: int| 0 <= j < first.len() implies first[j] != SEPARATOR by {
            if j > 0 {
                let tail = rest.take(first_end(rest) as int);
                assert(tail.contains(tail[j - 1]));
                assert(tail[j - 1] == first[j]);
            }
        }
    }
}

/// The text behind the head of `k` components spells the components that are left.
proof fn lemma_parsed_behind_head(text: PathView, k: nat)
    requires
        0 < k < parsed(text).len(),
    ensures
        parsed(text.skip(head_len(text, k, text.len()) as int)) == parsed(text).skip(k as int),
{
    let m = head_len(text, k, text.len());
    let head = text.take(m as int);
    let rest = text.skip(m as int);
    lemma_head_len(text, k, text.len());
    assert(text =~= head + rest);
    lemma_parsed_some(text);
    assert(m < text.len()) by {
        if m == text.len() {
            assert(head =~= text);
        }
    }
    let e = first_end(rest);
    let first = rest.take(e as int);
    lemma_first_end(rest);
    if m == 0 {
        assert(head =~= Seq::empty());
        lemma_parsed_some(head);
    } else {
        assert(head.last() == text[m - 1]);
    }
    lemma_parsed_last(head, first);
    if e < rest.len() {
        let longer = text.take(m as int + e + 1);
        assert(text[m as int + e] == rest[e as int]);
        assert(longer =~= (head + first).push(SEPARATOR));
        lemma_parsed_separator(head + first);
        assert(parsed(longer).len() > k);
    } else {
        assert(head + first =~= text);
    }
    assert(parsed(head).len() == k);
    assert(m > 0);
    assert(first.len() > 0 && first != dot_part());
    assert(!starts_at_root(rest)) by {
        assert(first.contains(first[0]));
    }
    lemma_parsed_concat(head, rest);
    assert(undotted(parsed(rest)) == parsed(rest)) by {
        if parsed(rest).len() > 0 && parsed(rest)[0] == dot_part() {
            lemma_split_pieces(rest);
            lemma_components_members(split(rest), split(rest).len());
            assert(split(rest)[0] == dot_part());
            lemma_first_piece(rest);
        }
    }
    assert(parsed(text).skip(k as int) =~= parsed(rest));
}

/// The first piece of a text goes up to its first separator.
proof fn lemma_first_piece(text: PathView)
    ensures
        split(text)[0] == text.take(first_end(text) as int),
{
    let e = first_end(text);
    let first = text.take(e as int);
    let empty = Seq::<u8>::empty();
    lemma_first_end(text);
    lemma_split_extend(empty, first);
    assert(empty + first =~= first);
    assert(split(empty) =~= seq![empty]);
    assert(split(first) =~= seq![first]);
    if e < text.len() {
        let head = first.push(SEPARATOR);
        let rest = text.skip(e as int + 1);
        assert(head.drop_last() =~= first);
        assert(split(head) =~= seq![first, empty]);
        assert(text =~= head + rest);
        lemma_split_concat(head, rest);
    } else {
        assert(first =~= text);
    }
}

/// What is left of a path behind a root, taken from its text, is what is left of its
/// components.
pub proof fn lemma_parsed_stripped(text: PathView, root: PathView)
    ensures
        match stripped_text(text, root) {
            Some(rest) => stripped(parsed(text), parsed(root)) == Some(parsed(rest)),
            None => stripped(parsed(text), parsed(root)) is None,
        },
{
    let plain = trimmed(text);
    let (path, front) = (parsed(text), parsed(root));
    lemma_parsed_trimmed(text);
    if front.is_prefix_of(path) {
        if front.len() == 0 {
            assert(path.skip(0) =~= path);
        } else if front.len() == path.len() {
            assert(path.skip(path.len() as int) =~= Seq::empty());
            lemma_parsed_some(Seq::empty());
            assert(parsed(Seq::empty()) =~= Seq::empty());
        } else {
            lemma_parsed_behind_head(plain, front.len());
        }
    }
}

/// What is left behind a root leads back to the whole path when taken from it.
pub proof fn lemma_stripped_resolves(path: PathView, root: PathView)
    requires
        parsed(root).is_prefix_of(parsed(path)),
    ensures
        stripped_text(path, root) matches Some(rest) && parsed(pushed(root, rest)) == parsed(path),
{
    let rest = stripped_text(path, root)->0;
    let (whole, front) = (parsed(path), parsed(root));
    lemma_parsed_stripped(path, root);
    lemma_parsed_pushed(root, rest);
    lemma_parsed_is_clean(path);
    assert(front + whole.skip(front.len() as int) =~= whole);
    if front.len() > 0 && parsed(rest).len() > 0 {
        assert(parsed(rest)[0] == whole[front.len() as int]);
        assert(root_part().contains(root_part()[0]));
    }
    assert(parsed(pushed(root, rest)) =~= whole);
}

/// A relative path taken from a root is found again behind that root.
pub proof fn lemma_resolved_strips(root: PathView, rest: PathView)
    requires
        !starts_at_root(rest),
        root.len() > 0 && parsed(rest).len() > 0 ==> parsed(rest)[0] != dot_part(),
    ensures
        stripped_text(pushed(root, rest), root) matches Some(again) && parsed(again) == parsed(rest),
{
    let path = pushed(root, rest);
    lemma_parsed_pushed(root, rest);
    lemma_parsed_absolute(rest);
    lemma_parsed_some(root);
    lemma_parsed_stripped(path, root);
    assert(parsed(path) =~= parsed(root) + parsed(rest));
    assert(parsed(root).is_prefix_of(parsed(path))) by {
        assert(parsed(path).subrange(0, parsed(root).len() as int) =~= parsed(root));
    }
    assert(parsed(path).skip(parsed(root).len() as int) =~= parsed(rest));
}

/// Joining puts one separator between two texts, unless the first is empty or has it
/// already; an absolute path stands alone.
pub proof fn lemma_pushed(base: PathView, path: PathView)
    ensures
        path.len() > 0 && path[0] == 0x2f ==> pushed(base, path) == path,
        !(path.len() > 0 && path[0] == 0x2f) ==> {
            &&& base.len() == 0 ==> pushed(base, path) == path
            &&& base.len() > 0 && base.last() == 0x2f ==> pushed(base, path) == base + path
            &&& base.len() > 0 && base.last() != 0x2f ==> pushed(base, path) == base
                + seq![0x2fu8] + path
        },
{
    assert(base.push(SEPARATOR) + path =~= base + seq![0x2fu8] + path);
    assert(base.len() == 0 ==> base + path =~= path);
}

/// How any text is read, from its front to its end: the empty text has no components, a
/// slash alone is the root, a slash behind something adds nothing, and a name behind a
/// slash, or at the front, is one more component, unless it is a dot behind a slash.
pub proof fn lemma_parsed_reads(text: PathView, name: Seq<u8>)
    ensures
        parsed(Seq::empty()).len() == 0,
        parsed(seq![0x2fu8]) == seq![seq![0x2fu8]],
        text.len() > 0 ==> parsed(text + seq![0x2fu8]) == parsed(text),
        (text.len() == 0 || text.last() == 0x2f) && !name.contains(0x2f) && name.len() > 0 ==> {
            &&& !(name == seq![0x2eu8] && text.len() > 0) ==> parsed(text + name) == parsed(
                text,
            ).push(name)
            &&& name == seq![0x2eu8] && text.len() > 0 ==> parsed(text + name) == parsed(text)
        },
{
    let empty = Seq::<u8>::empty();
    lemma_parsed_some(empty);
    lemma_parsed_separator(empty);
    lemma_parsed_separator(text);
    assert(empty.push(SEPARATOR) =~= seq![0x2fu8]);
    assert(root_part() =~= seq![0x2fu8]);
    assert(dot_part() =~= seq![0x2eu8]);
    assert(text.push(SEPARATOR) =~= text + seq![0x2fu8]);
    if (text.len() == 0 || text.last() == SEPARATOR) && !name.contains(SEPARATOR) {
        lemma_parsed_last(text, name);
    }
}

/// The first bytes of a text spell no more components than more of them do.
proof fn lemma_parsed_grows(text: PathView, n: int)
    requires
        0 <= n < text.len(),
    ensures
        parsed(text.take(n)).len() <= parsed(text.take(n + 1)).len(),
{
    let front = text.take(n);
    let byte = text[n];
    assert(text.take(n + 1) =~= front.push(byte));
    lemma_split_pieces(front);
    if byte == SEPARATOR {
        lemma_parsed_separator(front);
        lemma_parsed_some(front);
    } else {
        let head = up_to_separator(front);
        let last = front.skip(head.len() as int);
        let longer = last.push(byte);
        lemma_up_to_separator(front);
        assert(front.push(byte) =~= head + longer);
        assert forall|j: int| 0 <= j < longer.len() implies longer[j] != SEPARATOR by {
            if j < last.len() {
                assert(last.contains(last[j]));
                assert(longer[j] == last[j]);
            }
        }
        lemma_parsed_last(head, last);
        lemma_parsed_last(head, longer);
        if longer == dot_part() {
            assert(last.len() == 0);
        }
    }
}

proof fn lemma_parsed_prefix(text: PathView, n: int, m: int)
    requires
        0 <= n <= m <= text.len(),
    ensures
        parsed(text.take(n)).len() <= parsed(text.take(m)).len(),
    decreases m - n,
{
    if n < m {
        lemma_parsed_prefix(text, n, m - 1);
        lemma_parsed_grows(text, m - 1);
    }
}

/// A plain text spells fewer components, or none, without its last byte, or another last
/// one.
proof fn lemma_plain_is_shortest(text: PathView, n: int)
    requires
        is_plain(text),
        0 <= n < text.len(),
    ensures
        parsed(text.take(n)) != parsed(text),
{
    let front = up_to_separator(text);
    let last = text.skip(front.len() as int);
    lemma_parsed_some(text);
    if text == root_part() {
        assert(text.take(n) =~= Seq::empty());
        lemma_parsed_some(text.take(n));
    } else {
        lemma_up_to_separator(text);
        lemma_plain_last(text);
        if n <= front.len() {
            lemma_parsed_prefix(text, n, front.len() as int);
            assert(text.take(front.len() as int) =~= front);
        } else {
            let part = last.take(n - front.len());
            assert(text.take(n) =~= front + part);
            assert forall|j: int| 0 <= j < part.len() implies part[j] != SEPARATOR by {
                assert(last.contains(last[j]));
            }
            lemma_parsed_last(front, part);
            if parsed(text.take(n)) == parsed(text) {
                assert(parsed(text).last() == last);
                assert(part.len() == last.len());
            }
        }
    }
}

/// The parent of a path is the shortest beginning of its text that spells all of its
/// components but the last. Only the empty path and the root have none.
pub proof fn lemma_parent_is_shortest(text: PathView)
    ensures
        match parent_text(text) {
            Some(dir) => {
                &&& parsed(text).len() > 0
                &&& parsed(text).last() != seq![0x2fu8]
                &&& dir.len() <= text.len()
                &&& dir == text.take(dir.len() as int)
                &&& parsed(dir) == parsed(text).drop_last()
                &&& forall|n: int|
                    #![trigger text.take(n)]
                    0 <= n < dir.len() ==> parsed(text.take(n)) != parsed(dir)
            },
            None => parsed(text).len() == 0 || parsed(text).last() == seq![0x2fu8],
        },
{
    lemma_parsed_parent(text);
    assert(root_part() =~= seq![0x2fu8]);
    if let Some(dir) = parent_text(text) {
        let plain = trimmed(text);
        let front = up_to_separator(plain);
        lemma_trimmed_len(text);
        lemma_up_to_separator(plain);
        lemma_trimmed_len(front);
        assert(dir =~= text.take(dir.len() as int)) by {
            assert(front =~= plain.take(front.len() as int));
        }
        assert forall|n: int| #![trigger text.take(n)] 0 <= n < dir.len() implies parsed(
            text.take(n),
        ) != parsed(dir) by {
            assert(text.take(n) =~= dir.take(n));
            lemma_plain_is_shortest(dir, n);
        }
    }
}

/// What is left of a path behind a root is a piece of its text that spells the components
/// left: it goes from the first of them, which follows a slash, to the end of the last.
/// There is nothing left to speak of only if the root is no beginning of the path.
pub proof fn lemma_stripped_is_piece(text: PathView, root: PathView)
    ensures
        match stripped_text(text, root) {
            Some(rest) => {
                let k = parsed(root).len() as int;
                &&& parsed(root).is_prefix_of(parsed(text))
                &&& parsed(rest) == parsed(text).skip(k)
                &&& rest.len() >= 2 ==> rest.last() != 0x2f && !(rest.last() == 0x2e
                    && rest[rest.len() - 2] == 0x2f)
                &&& k == parsed(text).len() ==> rest.len() == 0
                &&& 0 < k < parsed(text).len() ==> {
                    &&& rest.len() > 0
                    &&& rest[0] != 0x2f
                }
                &&& exists|a: int, b: int|
                    #![trigger text.subrange(a, b)]
                    0 <= a <= b <= text.len() && rest == text.subrange(a, b) && (0 < k < parsed(
                        text,
                    ).len() ==> a > 0 && text[a - 1] == 0x2f) && (k == 0 ==> a == 0)
            },
            None => !parsed(root).is_prefix_of(parsed(text)),
        },
{
    lemma_parsed_stripped(text, root);
    let k = parsed(root).len();
    let plain = trimmed(text);
    lemma_trimmed_len(text);
    lemma_parsed_trimmed(text);
    if let Some(rest) = stripped_text(text, root) {
        if k == 0 {
            assert(rest =~= text.subrange(0, rest.len() as int));
            lemma_plain_end(plain);
            if parsed(text).len() == 0 {
                lemma_parsed_some(text);
            }
        } else if k == parsed(text).len() {
            assert(rest =~= text.subrange(0, 0));
        } else {
            let m = head_len(plain, k, plain.len()) as int;
            lemma_head_len(plain, k, plain.len());
            lemma_parsed_some(rest);
            assert(rest.len() > 0) by {
                assert(parsed(rest).len() == parsed(text).len() - k);
            }
            lemma_parsed_absolute(rest);
            if rest[0] == SEPARATOR {
                assert(is_absolute(parsed(rest)));
                lemma_parsed_is_clean(text);
                assert(parsed(rest)[0] == parsed(text)[k as int]);
                assert(root_part().contains(root_part()[0]));
            }
            assert(m > 0) by {
                if m == 0 {
                    assert(rest =~= plain);
                }
            }
            assert(rest =~= text.subrange(m, plain.len() as int));
            assert(text[m - 1] == plain[m - 1]);
            lemma_plain_end(plain);
            assert(plain.last() == rest.last());
            if rest.len() >= 2 {
                assert(plain[plain.len() - 2] == rest[rest.len() - 2]);
            }
        }
    }
}

/// A plain text has nothing at its end that counts for nothing.
proof fn lemma_plain_end(text: PathView)
    requires
        is_plain(text),
    ensures
        text.len() >= 2 ==> text.last() != SEPARATOR && !(text.last() == DOT && text[text.len() - 2]
            == SEPARATOR),
{
    if text.len() >= 2 {
        lemma_trimmed_len(text.drop_last());
    }
}

/// The contents of a list of byte strings are those of each, in its place.
pub proof fn lemma_rows(v: Seq<Vec<u8>>)
    ensures
        rows(v).len() == v.len(),
        forall|i: int| #![trigger rows(v)[i]] 0 <= i < v.len() ==> rows(v)[i] == v[i]@,
{
}

} // verus!
