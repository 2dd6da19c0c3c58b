//! Unix paths as byte sequences.
//!
//! A path is a sequence of bytes in which `/` separates components. Repeated and trailing
//! separators do not count, nor does a component `.` unless the path starts with it. These are
//! the rules of `std::path` on Unix.

use vstd::prelude::*;
use vstd::slice::slice_subrange;
use vstd::slice::slice_to_vec;
use vstd::utf8;
use crate::outside;
use crate::text;

verus! {

/// The byte that separates components.
pub const SLASH: u8 = 47;

/// The byte that stands before an extension.
pub const DOT: u8 = 46;

/// A path, absolute or relative, that need not be valid UTF-8.
#[derive(Debug)]
pub struct SkillPath {
    /// The bytes of the path.
    pub bytes: Vec<u8>,
}

impl Clone for SkillPath {
    fn clone(&self) -> (r: SkillPath)
        ensures
            r@ == self@,
    {
        SkillPath::from_bytes(self.bytes.as_slice())
    }
}

impl View for SkillPath {
    type V = Seq<u8>;

    open spec fn view(&self) -> Seq<u8> {
        self.bytes@
    }
}

/// The view of an optional path.
pub open spec fn path_view(p: Option<SkillPath>) -> Option<Seq<u8>> {
    match p {
        Some(q) => Some(q@),
        None => None,
    }
}

/// Where the last piece of `s` starts, when `s` is cut at its separators.
pub open spec fn last_piece_start(s: Seq<u8>) -> int
    decreases s.len(),
{
    if s.len() == 0 || s.last() == SLASH {
        s.len() as int
    } else {
        last_piece_start(s.drop_last())
    }
}

/// The last piece of a path starts within it, and is not empty unless a separator ends the path.
pub proof fn last_piece_start_bound(s: Seq<u8>)
    ensures
        0 <= last_piece_start(s) <= s.len(),
        s.len() > 0 && s.last() != SLASH ==> last_piece_start(s) < s.len(),
    decreases s.len(),
{
    if s.len() > 0 && s.last() != SLASH {
        last_piece_start_bound(s.drop_last());
    }
}

/// Whether the piece of `s` from `b` up to `e` is a component: it is not empty, and it is not a
/// `.` behind the start of the path.
pub open spec fn counts(s: Seq<u8>, b: int, e: int) -> bool {
    b < e && !(b > 0 && e == b + 1 && s[b] == DOT)
}

/// The start and the end of each component of `s`, in order.
pub open spec fn spans(s: Seq<u8>) -> Seq<(int, int)>
    decreases s.len(),
{
    if s.len() == 0 {
        Seq::empty()
    } else if s.last() == SLASH {
        spans(s.drop_last())
    } else {
        let b = last_piece_start(s);
        proof {
            last_piece_start_bound(s);
        }
        let before = spans(s.take(b));
        if counts(s, b, s.len() as int) {
            before.push((b, s.len() as int))
        } else {
            before
        }
    }
}

/// The components of `s`, in order, without the root.
pub open spec fn components(s: Seq<u8>) -> Seq<Seq<u8>> {
    spans(s).map_values(|p: (int, int)| s.subrange(p.0, p.1))
}

/// Whether `s` starts at the root.
pub open spec fn is_absolute(s: Seq<u8>) -> bool {
    s.len() > 0 && s[0] == SLASH
}

/// The last component of `s`, unless it is `.` or `..`.
pub open spec fn file_name(s: Seq<u8>) -> Option<Seq<u8>> {
    let all = components(s);
    if all.len() == 0 || all.last() == seq![DOT] || all.last() == seq![DOT, DOT] {
        None
    } else {
        Some(all.last())
    }
}

/// The index of the last `.` in `name`.
pub open spec fn last_dot(name: Seq<u8>) -> Option<int>
    decreases name.len(),
{
    if name.len() == 0 {
        None
    } else if name.last() == DOT {
        Some(name.len() - 1)
    } else {
        last_dot(name.drop_last())
    }
}

/// The part of a file name before its last `.`, or all of it where no `.` stands behind its
/// first byte.
pub open spec fn stem_of(name: Seq<u8>) -> Seq<u8> {
    match last_dot(name) {
        Some(d) => if d > 0 {
            name.take(d)
        } else {
            name
        },
        None => name,
    }
}

/// The part of a file name behind its last `.`, where one stands behind its first byte.
pub open spec fn extension_of(name: Seq<u8>) -> Option<Seq<u8>> {
    match last_dot(name) {
        Some(d) => if d > 0 {
            Some(name.skip(d + 1))
        } else {
            None
        },
        None => None,
    }
}

/// The stem of the last component of `s`.
pub open spec fn file_stem(s: Seq<u8>) -> Option<Seq<u8>> {
    match file_name(s) {
        Some(name) => Some(stem_of(name)),
        None => None,
    }
}

/// The extension of the last component of `s`.
pub open spec fn extension(s: Seq<u8>) -> Option<Seq<u8>> {
    match file_name(s) {
        Some(name) => extension_of(name),
        None => None,
    }
}

/// `s` up to the end of its last component but one, or its root where it has a single component.
pub open spec fn parent(s: Seq<u8>) -> Option<Seq<u8>> {
    let all = spans(s);
    if all.len() == 0 {
        None
    } else if all.len() == 1 {
        Some(s.take(if is_absolute(s) { 1int } else { 0int }))
    } else {
        Some(s.take(all[all.len() - 2].1))
    }
}

/// `tail` below `base`: `tail` alone where it is absolute.
pub open spec fn joined(base: Seq<u8>, tail: Seq<u8>) -> Seq<u8> {
    if is_absolute(tail) {
        tail
    } else if base.len() == 0 || base.last() == SLASH {
        base + tail
    } else {
        base.push(SLASH) + tail
    }
}

/// `text` below `base`.
pub open spec fn below(base: Seq<u8>, text: Seq<char>) -> Seq<u8> {
    joined(base, utf8::encode_utf8(text))
}

/// The text that `s` encodes in UTF-8.
pub open spec fn as_text(s: Seq<u8>) -> Option<Seq<char>> {
    if utf8::valid_utf8(s) {
        Some(utf8::decode_utf8(s))
    } else {
        None
    }
}

/// `s` and the paths reached from it by going to the parent again and again.
pub open spec fn ancestors(s: Seq<u8>) -> Seq<Seq<u8>>
    decreases s.len(),
{
    match parent(s) {
        Some(up) => {
            proof {
                parent_is_shorter(s);
            }
            seq![s] + ancestors(up)
        },
        None => seq![s],
    }
}

/// What `spans` holds: the spans are in order, apart, within the path, and behind the root.
proof fn spans_bounds(s: Seq<u8>)
    ensures
        forall|i: int|
            0 <= i < spans(s).len() ==> 0 <= (#[trigger] spans(s)[i]).0 < spans(s)[i].1
                <= s.len(),
        forall|i: int, j: int|
            0 <= i < j < spans(s).len() ==> (#[trigger] spans(s)[i]).1 < (#[trigger] spans(s)[j]).0,
        is_absolute(s) ==> forall|i: int|
            0 <= i < spans(s).len() ==> 0 < (#[trigger] spans(s)[i]).0,
    decreases s.len(),
{
    if s.len() == 0 {
    } else if s.last() == SLASH {
        spans_bounds(s.drop_last());
        assert(spans(s) == spans(s.drop_last()));
    } else {
        let b = last_piece_start(s);
        last_piece_start_bound(s);
        last_piece_follows_slash(s);
        let before = s.take(b);
        spans_bounds(before);
        if b > 0 {
            assert(before.last() == SLASH);
            spans_bounds(before.drop_last());
            assert forall|i: int| 0 <= i < spans(before).len() implies (#[trigger] spans(
                before,
            )[i]).1 < b by {
                assert(spans(before)[i] == spans(before.drop_last())[i]);
            }
        }
        assert forall|i: int| 0 <= i < spans(s).len() implies 0 <= (#[trigger] spans(s)[i]).0
            < spans(s)[i].1 <= s.len() by {
            if i < spans(before).len() {
                assert(spans(s)[i] == spans(before)[i]);
            }
        }
        if is_absolute(s) {
            assert(b > 0);
            assert forall|i: int| 0 <= i < spans(s).len() implies 0 < (#[trigger] spans(s)[i]).0 by {
                if i < spans(before).len() {
                    assert(spans(s)[i] == spans(before)[i]);
                }
            }
        }
        assert forall|i: int, j: int| 0 <= i < j < spans(s).len() implies (#[trigger] spans(s)[i]).1
            < (#[trigger] spans(s)[j]).0 by {
            assert(spans(s)[i] == spans(before)[i]);
            if j < spans(before).len() {
                assert(spans(s)[j] == spans(before)[j]);
            }
        }
    }
}

proof fn last_piece_follows_slash(s: Seq<u8>)
    ensures
        last_piece_start(s) > 0 ==> s[last_piece_start(s) - 1] == SLASH,
        forall|i: int| last_piece_start(s) <= i < s.len() ==> s[i] != SLASH,
    decreases s.len(),
{
    last_piece_start_bound(s);
    if s.len() > 0 && s.last() != SLASH {
        last_piece_start_bound(s.drop_last());
        last_piece_follows_slash(s.drop_last());
        assert forall|i: int| last_piece_start(s) <= i < s.len() implies s[i] != SLASH by {
            if i < s.len() - 1 {
                assert(s[i] == s.drop_last()[i]);
            }
        }
    }
}

/// The parent of a path is shorter than the path.
pub proof fn parent_is_shorter(s: Seq<u8>)
    ensures
        parent(s) matches Some(up) ==> up.len() < s.len(),
{
    spans_bounds(s);
    let all = spans(s);
    if all.len() >= 2 {
        assert(all[all.len() - 2].1 < all[all.len() - 1].0);
    } else if all.len() == 1 {
        assert(all[0].0 < all[0].1);
    }
}

/// Cutting a path behind its last component loses no component.
proof fn spans_end_at_last(s: Seq<u8>)
    requires
        spans(s).len() > 0,
    ensures
        0 < spans(s).last().1 <= s.len(),
        spans(s.take(spans(s).last().1)) == spans(s),
    decreases s.len(),
{
    spans_bounds(s);
    assert(spans(s)[spans(s).len() - 1] == spans(s).last());
    let e = spans(s).last().1;
    if s.last() == SLASH {
        let t = s.drop_last();
        spans_end_at_last(t);
        assert(t.take(e) == s.take(e));
    } else {
        let b = last_piece_start(s);
        last_piece_start_bound(s);
        if counts(s, b, s.len() as int) {
            assert(s.take(e) == s);
        } else {
            let t = s.take(b);
            spans_end_at_last(t);
            assert(t.take(e) == s.take(e));
        }
    }
}

/// Cutting a path before its last component takes away that component alone.
proof fn spans_before_last(s: Seq<u8>)
    requires
        spans(s).len() > 0,
    ensures
        0 <= spans(s).last().0 < s.len(),
        spans(s.take(spans(s).last().0)) == spans(s).drop_last(),
    decreases s.len(),
{
    spans_bounds(s);
    assert(spans(s)[spans(s).len() - 1] == spans(s).last());
    let b = spans(s).last().0;
    if s.last() == SLASH {
        let t = s.drop_last();
        spans_before_last(t);
        assert(t.take(b) == s.take(b));
    } else {
        let c = last_piece_start(s);
        last_piece_start_bound(s);
        if counts(s, c, s.len() as int) {
            assert(spans(s).drop_last() == spans(s.take(c)));
        } else {
            let t = s.take(c);
            spans_before_last(t);
            assert(t.take(b) == s.take(b));
        }
    }
}

/// The parent of a path has the components of the path but the last, and starts at the root if
/// the path does.
pub proof fn parent_drops_last_component(s: Seq<u8>)
    requires
        components(s).len() > 0,
    ensures
        parent(s) matches Some(up) && components(up) == components(s).drop_last()
            && is_absolute(up) == is_absolute(s),
{
    let all = spans(s);
    spans_bounds(s);
    spans_before_last(s);
    let b = all.last().0;
    assert(all[all.len() - 1] == all.last());
    let head = s.take(b);
    let up = parent(s)->Some_0;
    if all.len() == 1 {
        assert(all.drop_last().len() == 0);
        if is_absolute(s) {
            assert(up == seq![SLASH]);
            assert(up.drop_last() == Seq::<u8>::empty());
            reveal_with_fuel(spans, 3);
        } else {
            assert(up == Seq::<u8>::empty());
        }
        assert(spans(up).len() == 0);
    } else {
        assert(spans(head).last() == all[all.len() - 2]);
        spans_end_at_last(head);
        assert(head.take(spans(head).last().1) == up);
        assert(spans(up) == all.drop_last());
    }
    spans_bounds(up);
    assert(components(up) =~= components(s).drop_last()) by {
        assert forall|i: int| 0 <= i < spans(up).len() implies components(up)[i] == components(
            s,
        ).drop_last()[i] by {
            assert(spans(up)[i] == all[i]);
            assert(components(up)[i] == up.subrange(all[i].0, all[i].1));
            assert(components(s)[i] == s.subrange(all[i].0, all[i].1));
            assert(up.subrange(all[i].0, all[i].1) =~= s.subrange(all[i].0, all[i].1));
        }
    }
}

proof fn last_piece_of_concat(p: Seq<u8>, name: Seq<u8>)
    requires
        p.len() == 0 || p.last() == SLASH,
        forall|i: int| 0 <= i < name.len() ==> name[i] != SLASH,
    ensures
        last_piece_start(p + name) == p.len(),
    decreases name.len(),
{
    if name.len() == 0 {
        assert(p + name == p);
    } else {
        assert((p + name).drop_last() == p + name.drop_last());
        last_piece_of_concat(p, name.drop_last());
    }
}

/// Whether `name` can name a file or a directory: it is not empty, holds no separator, and is
/// neither `.` nor `..`.
pub open spec fn is_plain_name(name: Seq<u8>) -> bool {
    &&& name.len() > 0
    &&& forall|i: int| 0 <= i < name.len() ==> name[i] != SLASH
    &&& name != seq![DOT]
    &&& name != seq![DOT, DOT]
}

/// Joining a plain name to a path adds it as the last component.
pub proof fn joined_name_is_last_component(base: Seq<u8>, name: Seq<u8>)
    requires
        is_plain_name(name),
    ensures
        components(joined(base, name)) == components(base).push(name),
        file_name(joined(base, name)) == Some(name),
{
    let s = joined(base, name);
    let p = if base.len() == 0 || base.last() == SLASH {
        base
    } else {
        base.push(SLASH)
    };
    assert(s == p + name);
    last_piece_of_concat(p, name);
    assert(s.take(p.len() as int) == p);
    assert(s.last() == name.last());
    if p != base {
        assert(p.drop_last() == base);
    }
    assert(spans(p) == spans(base));
    let n = s.len() as int;
    if name.len() == 1 {
        assert(name == seq![name[0]]);
        assert(s[p.len() as int] == name[0]);
    }
    assert(spans(s) == spans(base).push((p.len() as int, n)));
    spans_bounds(base);
    assert(components(s) =~= components(base).push(name)) by {
        assert forall|i: int| 0 <= i < components(s).len() implies components(s)[i] == components(
            base,
        ).push(name)[i] by {
            if i < spans(base).len() {
                let q = spans(base)[i];
                assert(components(s)[i] == s.subrange(q.0, q.1));
                assert(components(base)[i] == base.subrange(q.0, q.1));
                assert(s.subrange(q.0, q.1) =~= base.subrange(q.0, q.1));
            } else {
                assert(components(s)[i] == s.subrange(p.len() as int, n));
                assert(s.subrange(p.len() as int, n) =~= name);
            }
        }
    }
}

/// What is joined to an absolute path is absolute.
pub proof fn joined_stays_absolute(base: Seq<u8>, tail: Seq<u8>)
    requires
        is_absolute(base),
    ensures
        is_absolute(joined(base, tail)),
{
}

/// Two texts one behind the other are encoded one behind the other.
pub(crate) proof fn encoding_of_concat(a: Seq<char>, b: Seq<char>)
    ensures
        utf8::encode_utf8(a + b) == utf8::encode_utf8(a) + utf8::encode_utf8(b),
    decreases a.len(),
{
    if a.len() == 0 {
        assert(a + b == b);
        assert(utf8::encode_utf8(a) + utf8::encode_utf8(b) =~= utf8::encode_utf8(b));
    } else {
        assert((a + b)[0] == a[0]);
        assert((a + b).drop_first() == a.drop_first() + b);
        encoding_of_concat(a.drop_first(), b);
        assert(utf8::encode_utf8(a + b) =~= utf8::encode_utf8(a) + utf8::encode_utf8(b));
    }
}

proof fn scalar_without_slash(c: char)
    requires
        c != '/',
    ensures
        utf8::encode_scalar(c as u32).len() > 0,
        forall|i: int|
            0 <= i < utf8::encode_scalar(c as u32).len() ==> #[trigger] utf8::encode_scalar(
                c as u32,
            )[i] != SLASH,
{
    let n = c as u32;
    assert(n != 47);
    assert(n <= 0x7f && n != 47 ==> (n & 0x7F) as u8 != 47u8) by (bit_vector);
    assert(0xC0u8 | ((n >> 6) & 0x1F) as u8 != 47u8) by (bit_vector);
    assert(0xE0u8 | ((n >> 12) & 0x0F) as u8 != 47u8) by (bit_vector);
    assert(0xF0u8 | ((n >> 18) & 0x7) as u8 != 47u8) by (bit_vector);
    assert(0x80u8 | (n & 0x3F) as u8 != 47u8) by (bit_vector);
    assert(0x80u8 | ((n >> 6) & 0x3F) as u8 != 47u8) by (bit_vector);
    assert(0x80u8 | ((n >> 12) & 0x3F) as u8 != 47u8) by (bit_vector);
}

/// A text without `/` is encoded without a separator, and only the empty text as nothing.
pub(crate) proof fn encoding_without_slash(t: Seq<char>)
    requires
        text::is_without(t, '/'),
    ensures
        forall|i: int| 0 <= i < utf8::encode_utf8(t).len() ==> utf8::encode_utf8(t)[i] != SLASH,
        utf8::encode_utf8(t).len() >= t.len(),
    decreases t.len(),
{
    if t.len() > 0 {
        let first = utf8::encode_scalar(t[0] as u32);
        let rest = utf8::encode_utf8(t.drop_first());
        scalar_without_slash(t[0]);
        encoding_without_slash(t.drop_first());
        assert forall|i: int| 0 <= i < utf8::encode_utf8(t).len() implies utf8::encode_utf8(t)[i]
            != SLASH by {
            if i < first.len() {
                assert(utf8::encode_utf8(t)[i] == first[i]);
            } else {
                assert(utf8::encode_utf8(t)[i] == rest[i - first.len()]);
            }
        }
    }
}

/// A text that does not start with `/` is encoded as a path that is not absolute.
pub(crate) proof fn encoding_is_relative(t: Seq<char>)
    requires
        t.len() > 0 ==> t[0] != '/',
    ensures
        !is_absolute(utf8::encode_utf8(t)),
{
    if t.len() > 0 {
        let first = utf8::encode_scalar(t[0] as u32);
        scalar_without_slash(t[0]);
        assert(utf8::encode_utf8(t)[0] == first[0]);
    }
}

proof fn last_dot_of_concat(a: Seq<u8>, b: Seq<u8>)
    requires
        forall|i: int| 0 <= i < b.len() ==> b[i] != DOT,
    ensures
        last_dot(a.push(DOT) + b) == Some(a.len() as int),
    decreases b.len(),
{
    let s = a.push(DOT) + b;
    if b.len() == 0 {
        assert(s == a.push(DOT));
    } else {
        assert(s.drop_last() == a.push(DOT) + b.drop_last());
        last_dot_of_concat(a, b.drop_last());
    }
}

/// What stands before the last `.` of a name is its stem, and what stands behind it its extension.
pub proof fn name_has_stem_and_extension(stem: Seq<u8>, ext: Seq<u8>)
    requires
        stem.len() > 0,
        forall|i: int| 0 <= i < ext.len() ==> ext[i] != DOT,
    ensures
        stem_of(stem.push(DOT) + ext) == stem,
        extension_of(stem.push(DOT) + ext) == Some(ext),
{
    let name = stem.push(DOT) + ext;
    last_dot_of_concat(stem, ext);
    assert(name.take(stem.len() as int) =~= stem);
    assert(name.skip(stem.len() as int + 1) =~= ext);
}

/// Going to the parent again and again takes away one component at a time, down to none, and
/// leaves the root where it is.
pub proof fn ancestors_drop_components(s: Seq<u8>, k: int)
    requires
        0 <= k <= components(s).len(),
    ensures
        ancestors(s).len() == components(s).len() + 1,
        components(ancestors(s)[k]) == components(s).take(components(s).len() - k),
        is_absolute(ancestors(s)[k]) == is_absolute(s),
        ancestors(s)[0] == s,
    decreases s.len(),
{
    let all = components(s);
    if all.len() == 0 {
        assert(all.take(0) =~= all);
    } else {
        parent_is_shorter(s);
        parent_drops_last_component(s);
        let up = parent(s)->Some_0;
        assert(ancestors(s) == seq![s] + ancestors(up));
        if k == 0 {
            ancestors_drop_components(up, 0);
            assert(all.take(all.len() as int) =~= all);
        } else {
            ancestors_drop_components(up, k - 1);
            assert(ancestors(s)[k] == ancestors(up)[k - 1]);
            assert(all.drop_last().take(all.len() - k) =~= all.take(all.len() - k));
        }
    }
}

impl SkillPath {
    /// The path that `text` spells.
    pub fn new(text: &str) -> (r: SkillPath)
        ensures
            r@ == utf8::encode_utf8(text@),
    {
        SkillPath { bytes: slice_to_vec(text.as_bytes()) }
    }

    /// The path made of `bytes`.
    pub fn from_bytes(bytes: &[u8]) -> (r: SkillPath)
        ensures
            r@ == bytes@,
    {
        SkillPath { bytes: slice_to_vec(bytes) }
    }

    /// The bytes of the path.
    pub fn as_bytes(&self) -> (r: &[u8])
        ensures
            r@ == self@,
    {
        self.bytes.as_slice()
    }

    /// Whether the path starts at the root.
    pub fn is_absolute(&self) -> (r: bool)
        ensures
            r == is_absolute(self@),
    {
        self.bytes.len() > 0 && self.bytes[0] == SLASH
    }

    /// The path as text, where it is valid UTF-8.
    pub fn to_text(&self) -> (r: Option<String>)
        ensures
            match r {
                Some(t) => as_text(self@) == Some(t@),
                None => as_text(self@) is None,
            },
    {
        outside::utf8_text(self.bytes.as_slice())
    }

    /// The last component, unless it is `.` or `..`.
    pub fn file_name(&self) -> (r: Option<&[u8]>)
        ensures
            match r {
                Some(name) => file_name(self@) == Some(name@),
                None => file_name(self@) is None,
            },
    {
        let s = self.bytes.as_slice();
        match last_span(s) {
            Some((b, e)) => {
                let name = slice_subrange(s, b, e);
                assert(components(self@).last() == name@);
                let dots: bool = (name.len() == 1 && name[0] == DOT) || (name.len() == 2 && name[0]
                    == DOT && name[1] == DOT);
                assert(dots ==> name@ == seq![DOT] || name@ == seq![DOT, DOT]);
                if dots {
                    None
                } else {
                    Some(name)
                }
            },
            None => None,
        }
    }

    /// The stem of the last component.
    pub fn file_stem(&self) -> (r: Option<&[u8]>)
        ensures
            match r {
                Some(stem) => file_stem(self@) == Some(stem@),
                None => file_stem(self@) is None,
            },
    {
        match self.file_name() {
            Some(name) => match find_last_dot(name) {
                Some(d) => if d > 0 {
                    Some(slice_subrange(name, 0, d))
                } else {
                    Some(name)
                },
                None => Some(name),
            },
            None => None,
        }
    }

    /// The extension of the last component.
    pub fn extension(&self) -> (r: Option<&[u8]>)
        ensures
            match r {
                Some(x) => extension(self@) == Some(x@),
                None => extension(self@) is None,
            },
    {
        match self.file_name() {
            Some(name) => match find_last_dot(name) {
                Some(d) => if d > 0 {
                    Some(slice_subrange(name, d + 1, name.len()))
                } else {
                    None
                },
                None => None,
            },
            None => None,
        }
    }

    /// The path without its last component.
    pub fn parent(&self) -> (r: Option<SkillPath>)
        ensures
            match r {
                Some(up) => parent(self@) == Some(up@),
                None => parent(self@) is None,
            },
    {
        let s = self.bytes.as_slice();
        match last_span(s) {
            Some((b, _)) => {
                let n: usize = match last_span(slice_subrange(s, 0, b)) {
                    Some((_, e)) => e,
                    None => if s[0] == SLASH {
                        1
                    } else {
                        0
                    },
                };
                Some(SkillPath::from_bytes(slice_subrange(s, 0, n)))
            },
            None => None,
        }
    }

    /// `tail` below this path: `tail` alone where it is absolute.
    pub fn join(&self, tail: &[u8]) -> (r: SkillPath)
        ensures
            r@ == joined(self@, tail@),
    {
        if tail.len() > 0 && tail[0] == SLASH {
            return SkillPath::from_bytes(tail);
        }
        let mut bytes = slice_to_vec(self.bytes.as_slice());
        if bytes.len() > 0 && bytes[bytes.len() - 1] != SLASH {
            bytes.push(SLASH);
        }
        let mut more = slice_to_vec(tail);
        bytes.append(&mut more);
        SkillPath { bytes }
    }

    /// `text` below this path.
    pub fn join_text(&self, text: &str) -> (r: SkillPath)
        ensures
            r@ == below(self@, text@),
    {
        self.join(text.as_bytes())
    }
}

/// Finds the last component of `s`.
fn last_span(s: &[u8]) -> (r: Option<(usize, usize)>)
    ensures
        match r {
            Some((b, e)) => {
                &&& b < e <= s.len()
                &&& spans(s@) == spans(s@.take(b as int)).push((b as int, e as int))
            },
            None => spans(s@).len() == 0,
        },
{
    let mut n: usize = s.len();
    assert(s@.take(n as int) == s@);
    while n > 0
        invariant
            n <= s.len(),
            spans(s@.take(n as int)) == spans(s@),
        decreases n,
    {
        let ghost head = s@.take(n as int);
        if s[n - 1] == SLASH {
            assert(head.drop_last() == s@.take(n - 1));
            n -= 1;
        } else {
            let mut b: usize = n - 1;
            assert(head.drop_last() == s@.take(b as int));
            while b > 0 && s[b - 1] != SLASH
                invariant
                    b < n <= s.len(),
                    head == s@.take(n as int),
                    last_piece_start(s@.take(b as int)) == last_piece_start(head),
                decreases b,
            {
                assert(s@.take(b as int).drop_last() == s@.take(b - 1));
                b -= 1;
            }
            assert(head.take(b as int) == s@.take(b as int));
            if !(b > 0 && n == b + 1 && s[b] == DOT) {
                return Some((b, n));
            }
            n = b;
        }
    }
    None
}

/// Finds the last `.` in `name`.
fn find_last_dot(name: &[u8]) -> (r: Option<usize>)
    ensures
        match r {
            Some(d) => d < name.len() && last_dot(name@) == Some(d as int),
            None => last_dot(name@) is None,
        },
{
    let mut n: usize = name.len();
    assert(name@.take(n as int) == name@);
    while n > 0
        invariant
            n <= name.len(),
            last_dot(name@.take(n as int)) == last_dot(name@),
        decreases n,
    {
        if name[n - 1] == DOT {
            return Some(n - 1);
        }
        assert(name@.take(n as int).drop_last() == name@.take(n - 1));
        n -= 1;
    }
    None
}

/// The bytes of the separator and of the dot are those of the characters `/` and `.`.
pub proof fn separators_are_characters()
    ensures
        utf8::encode_utf8("/"@) == seq![SLASH],
        utf8::encode_utf8("."@) == seq![DOT],
        utf8::encode_utf8(".."@) == seq![DOT, DOT],
{
    reveal_strlit("/");
    reveal_strlit(".");
    reveal_strlit("..");
    utf8::is_ascii_chars_encode_utf8("/"@);
    utf8::is_ascii_chars_encode_utf8("."@);
    utf8::is_ascii_chars_encode_utf8(".."@);
    assert('/' as u8 == SLASH);
    assert('.' as u8 == DOT);
    assert(utf8::encode_utf8("/"@) =~= seq![SLASH]);
    assert(utf8::encode_utf8("."@) =~= seq![DOT]);
    assert(utf8::encode_utf8(".."@) =~= seq![DOT, DOT]);
}

/// A path is absolute exactly if it starts with the separator.
pub proof fn absolute_paths_start_at_the_root(s: Seq<u8>)
    ensures
        is_absolute(s) <==> seq![47u8].is_prefix_of(s),
{
    if s.len() > 0 {
        assert(s.subrange(0, 1) =~= seq![s[0]]);
    }
    if seq![47u8].is_prefix_of(s) {
        assert(s.subrange(0, 1)[0] == seq![47u8][0]);
    }
}

/// How the components of a path come from those of the path without its last byte or its last
/// piece.
proof fn components_step(s: Seq<u8>)
    requires
        s.len() > 0,
    ensures
        s.last() == SLASH ==> components(s) == components(s.drop_last()),
        s.last() != SLASH ==> {
            let b = last_piece_start(s);
            &&& 0 <= b < s.len()
            &&& components(s) == if counts(s, b, s.len() as int) {
                components(s.take(b)).push(s.skip(b))
            } else {
                components(s.take(b))
            }
        },
{
    last_piece_start_bound(s);
    let t = if s.last() == SLASH {
        s.drop_last()
    } else {
        s.take(last_piece_start(s))
    };
    spans_bounds(t);
    assert forall|i: int| 0 <= i < spans(t).len() implies t.subrange(
        (#[trigger] spans(t)[i]).0,
        spans(t)[i].1,
    ) == s.subrange(spans(t)[i].0, spans(t)[i].1) by {
        let q = spans(t)[i];
        assert(t.subrange(q.0, q.1) =~= s.subrange(q.0, q.1));
    }
    if s.last() == SLASH {
        assert(components(s) =~= components(t));
    } else {
        let b = last_piece_start(s);
        if counts(s, b, s.len() as int) {
            assert(s.subrange(b, s.len() as int) =~= s.skip(b));
            assert(components(s) =~= components(t).push(s.skip(b)));
        } else {
            assert(components(s) =~= components(t));
        }
    }
}

/// A path without separators is its only component, and the empty path has none. Neither a
/// separator at the end of a path counts, nor the root.
pub proof fn pieces_are_components(name: Seq<u8>, s: Seq<u8>)
    requires
        name.len() > 0,
        forall|i: int| 0 <= i < name.len() ==> name[i] != SLASH,
    ensures
        components(name) == seq![name],
        components(Seq::empty()) == Seq::<Seq<u8>>::empty(),
        components(seq![SLASH]) == Seq::<Seq<u8>>::empty(),
        components(s.push(SLASH)) == components(s),
{
    let none = Seq::<u8>::empty();
    assert(components(none) =~= Seq::<Seq<u8>>::empty());
    components_step(seq![SLASH]);
    assert(seq![SLASH].drop_last() =~= none);
    components_step(s.push(SLASH));
    assert(s.push(SLASH).drop_last() =~= s);
    last_piece_of_concat(none, name);
    assert(none + name =~= name);
    components_step(name);
    assert(name.take(0) =~= none);
    assert(name.skip(0) =~= name);
    assert(components(name) =~= seq![name]);
}

proof fn last_piece_of_tail(p: Seq<u8>, t: Seq<u8>)
    requires
        p.len() == 0 || p.last() == SLASH,
    ensures
        last_piece_start(p + t) == p.len() + last_piece_start(t),
    decreases t.len(),
{
    if t.len() == 0 {
        assert(p + t =~= p);
    } else {
        assert((p + t).last() == t.last());
        assert((p + t).drop_last() =~= p + t.drop_last());
        last_piece_of_tail(p, t.drop_last());
    }
}

/// The components of a path that is put behind another one: a leading `.` does not count there.
pub open spec fn components_behind(tail: Seq<u8>) -> Seq<Seq<u8>> {
    let all = components(tail);
    if all.len() > 0 && all[0] == seq![DOT] {
        all.drop_first()
    } else {
        all
    }
}

proof fn components_of_concat(p: Seq<u8>, t: Seq<u8>)
    requires
        p.len() > 0,
        p.last() == SLASH,
    ensures
        components(p + t) == components(p) + components_behind(t),
    decreases t.len(),
{
    let s = p + t;
    if t.len() == 0 {
        assert(s =~= p);
        assert(components(t) =~= Seq::<Seq<u8>>::empty());
        assert(components(s) =~= components(p) + components_behind(t));
    } else if t.last() == SLASH {
        components_step(t);
        components_step(s);
        assert(s.drop_last() =~= p + t.drop_last());
        components_of_concat(p, t.drop_last());
    } else {
        let b = last_piece_start(t);
        components_step(t);
        components_step(s);
        last_piece_of_tail(p, t);
        let head = t.take(b);
        components_of_concat(p, head);
        assert(s.take(p.len() + b) =~= p + head);
        assert(s.skip(p.len() + b) =~= t.skip(b));
        assert(s[p.len() + b] == t[b]);
        if b == 0 {
            assert(head =~= Seq::<u8>::empty());
            assert(components(head) =~= Seq::<Seq<u8>>::empty());
            assert(t.skip(0) =~= t);
            assert(components(t) =~= seq![t]);
            if t.len() == 1 && t[0] == DOT {
                assert(t =~= seq![DOT]);
            } else {
                assert(t != seq![DOT]) by {
                    if t == seq![DOT] {
                        assert(t[0] == DOT && t.len() == 1);
                    }
                }
            }
        } else if components(head).len() == 0 {
            if counts(t, b, t.len() as int) {
                assert(components(t)[0] == t.skip(b));
                if t.skip(b) == seq![DOT] {
                    assert(t.skip(b)[0] == DOT && t.skip(b).len() == 1);
                    assert(t[b] == DOT);
                }
            }
        }
        assert(components(s) =~= components(p) + components_behind(t));
    }
}

/// Joining keeps both paths whole: what is joined stands at the end and the base at the start, with
/// no more than a separator between them, and the components are those of the base followed by
/// those of the tail. An absolute path is taken alone.
pub proof fn joining_keeps_both_paths(base: Seq<u8>, tail: Seq<u8>)
    ensures
        is_absolute(tail) ==> joined(base, tail) == tail,
        !is_absolute(tail) ==> {
            &&& base.is_prefix_of(joined(base, tail))
            &&& tail.is_suffix_of(joined(base, tail))
            &&& joined(base, tail).len() <= base.len() + 1 + tail.len()
            &&& base.len() == 0 ==> joined(base, tail) == tail
            &&& base.len() > 0 ==> components(joined(base, tail)) == components(base)
                + components_behind(tail)
            &&& base.len() > 0 ==> is_absolute(joined(base, tail)) == is_absolute(base)
        },
{
    if !is_absolute(tail) {
        let s = joined(base, tail);
        assert(s.subrange(0, base.len() as int) =~= base);
        assert(s.subrange(s.len() - tail.len(), s.len() as int) =~= tail);
        if base.len() == 0 {
            assert(s =~= tail);
        } else if base.last() == SLASH {
            components_of_concat(base, tail);
        } else {
            let p = base.push(SLASH);
            components_of_concat(p, tail);
            components_step(p);
            assert(p.drop_last() =~= base);
        }
    }
}

/// The file name of a path is its last component; it has none where there is no component, and
/// where the last one is `.` or `..`.
pub proof fn file_name_is_the_last_component(s: Seq<u8>, name: Seq<u8>)
    ensures
        components(s).len() == 0 ==> file_name(s) is None,
        components(s).len() > 0 && components(s).last() == name && name != utf8::encode_utf8("."@)
            && name != utf8::encode_utf8(".."@) ==> file_name(s) == Some(name),
        components(s).len() > 0 && (components(s).last() == utf8::encode_utf8("."@) || components(
            s,
        ).last() == utf8::encode_utf8(".."@)) ==> file_name(s) is None,
{
    separators_are_characters();
}

/// A name without a dot behind its first byte is all stem.
pub proof fn name_without_dot_is_all_stem(name: Seq<u8>)
    requires
        forall|i: int| 0 < i < name.len() ==> name[i] != DOT,
    ensures
        stem_of(name) == name,
        extension_of(name) is None,
{
    last_dot_is_first_byte(name);
}

proof fn last_dot_is_first_byte(name: Seq<u8>)
    requires
        forall|i: int| 0 < i < name.len() ==> name[i] != DOT,
    ensures
        last_dot(name) matches Some(d) ==> d == 0,
    decreases name.len(),
{
    if name.len() > 0 && name.last() != DOT {
        last_dot_is_first_byte(name.drop_last());
    }
}

/// A path has the stem and the extension of its file name, and none without one.
pub proof fn stem_and_extension_are_those_of_the_name(s: Seq<u8>, name: Seq<u8>)
    ensures
        file_name(s) == Some(name) ==> file_stem(s) == Some(stem_of(name)) && extension(s)
            == extension_of(name),
        file_name(s) is None ==> file_stem(s) is None && extension(s) is None,
{
}

/// The parent of a path is a part of it from its start, up to the end of the last component but
/// one. Only a path without components has none.
pub proof fn parent_is_cut_from_the_path(s: Seq<u8>)
    ensures
        parent(s) is None <==> components(s).len() == 0,
        parent(s) matches Some(up) ==> up.is_prefix_of(s) && (components(up).len() > 0
            ==> components(up).last().is_suffix_of(up)) && (components(up).len() == 0 ==> up.len()
            <= 1),
{
    let all = spans(s);
    spans_bounds(s);
    if all.len() > 0 {
        let up = parent(s)->Some_0;
        parent_drops_last_component(s);
        assert(s.subrange(0, up.len() as int) =~= up);
        if all.len() > 1 {
            let q = all[all.len() - 2];
            let last = components(s)[all.len() - 2];
            assert(last == s.subrange(q.0, q.1));
            assert(components(up).last() == last);
            assert(up.subrange(up.len() - last.len(), up.len() as int) =~= last);
        }
    }
}

/// A text is read back from its bytes, and bytes that are read as text are those of the text.
pub proof fn text_is_read_back(t: Seq<char>, s: Seq<u8>)
    ensures
        as_text(utf8::encode_utf8(t)) == Some(t),
        as_text(s) matches Some(u) ==> utf8::encode_utf8(u) == s,
        as_text(s) is None ==> s != utf8::encode_utf8(t),
{
    utf8::encode_utf8_decode_utf8(t);
    utf8::encode_utf8_valid_utf8(t);
    if utf8::valid_utf8(s) {
        utf8::decode_utf8_encode_utf8(s);
    }
}

/// The view of a path, given or not, holds its bytes.
pub proof fn path_view_shows_the_path(p: SkillPath)
    ensures
        p@ == p.bytes@,
        path_view(Some(p)) == Some(p.bytes@),
        path_view(None) is None,
{
}

} // verus!
