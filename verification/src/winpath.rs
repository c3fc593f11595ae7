//! Windows paths as text: a prefix that names a drive, a share or a device, then components parted
//! by separators.

use vstd::prelude::*;

use crate::text::{chars_of, is_ascii_letter, is_ascii_letter_spec, is_separator, is_separator_spec,
    push_text, string_of};

verus! {

/// Whether the path begins with a drive designator, such as `C:`.
pub open spec fn has_drive(path: Seq<char>) -> bool {
    path.len() >= 2 && is_ascii_letter_spec(path[0]) && path[1] == ':'
}

/// Whether the path begins with two separators, as the names of shares and devices do.
pub open spec fn has_two_separators(path: Seq<char>) -> bool {
    path.len() >= 2 && is_separator_spec(path[0]) && is_separator_spec(path[1])
}

/// Whether the path begins with `\\?\`, so that its components are taken as they are written.
pub open spec fn is_verbatim(path: Seq<char>) -> bool {
    path.len() >= 4 && path[0] == '\\' && path[1] == '\\' && path[2] == '?' && path[3] == '\\'
}

/// Whether the path begins with `\\.\`, as the names of devices do.
pub open spec fn is_device(path: Seq<char>) -> bool {
    path.len() >= 4 && has_two_separators(path) && path[2] == '.' && is_separator_spec(path[3])
}

/// Whether the path begins with `\\?\UNC\`, behind which a server and a share are named.
pub open spec fn is_verbatim_share(path: Seq<char>) -> bool {
    path.len() >= 8 && is_verbatim(path) && path[4] == 'U' && path[5] == 'N' && path[6] == 'C'
        && is_separator_spec(path[7])
}

/// Whether the path begins with `\\?\` and a drive designator that is a whole component.
pub open spec fn is_verbatim_drive(path: Seq<char>) -> bool {
    path.len() >= 6 && is_verbatim(path) && is_ascii_letter_spec(path[4]) && path[5] == ':' && (
    path.len() == 6 || is_separator_spec(path[6]))
}

/// Whether `c` parts components: where they are taken as they are written, only a backslash does.
pub open spec fn parts_at(verbatim: bool, c: char) -> bool {
    c == '\\' || (!verbatim && is_separator_spec(c))
}

/// Where the component that begins at `from` ends.
pub open spec fn part_end(path: Seq<char>, from: int, verbatim: bool) -> int
    decreases path.len() - from,
{
    if from < 0 || from >= path.len() || parts_at(verbatim, path[from]) {
        from
    } else {
        part_end(path, from + 1, verbatim)
    }
}

/// Where the server and the share that are named from `from` on end: with the server where no share
/// is named.
pub open spec fn share_end(path: Seq<char>, from: int, verbatim: bool) -> int {
    let server = part_end(path, from, verbatim);
    let share = part_end(path, server + 1, verbatim);
    if server < path.len() && share > server + 1 {
        share
    } else {
        server
    }
}

/// How many characters the prefix takes: a drive designator, a share as in `\\server\share`, a device
/// as in `\\.\device`, or one of `\\?\C:`, `\\?\UNC\server\share` and `\\?\other`.
pub open spec fn prefix_len(path: Seq<char>) -> int {
    if has_drive(path) {
        2
    } else if !has_two_separators(path) {
        0
    } else if is_verbatim_share(path) {
        share_end(path, 8, true)
    } else if is_verbatim_drive(path) {
        6
    } else if is_verbatim(path) {
        part_end(path, 4, true)
    } else if is_device(path) {
        part_end(path, 4, false)
    } else {
        let server = part_end(path, 2, false);
        if server > 2 && share_end(path, 2, false) > server {
            share_end(path, 2, false)
        } else {
            0
        }
    }
}

/// Whether the path names a server, or would if it went on, and nothing behind it.
pub open spec fn is_bare_server(path: Seq<char>) -> bool {
    &&& has_two_separators(path)
    &&& if is_verbatim(path) {
        ||| path.len() == 7 && path[4] == 'U' && path[5] == 'N' && path[6] == 'C'
        ||| is_verbatim_share(path) && part_end(path, 8, true) == path.len()
    } else {
        !is_device(path) && part_end(path, 2, false) == path.len()
    }
}

/// A component of a path.
pub enum Piece {
    /// The root behind the prefix.
    Root,
    /// A lone dot: the directory itself.
    Current,
    /// Two dots: the directory above.
    Parent,
    /// A name.
    Normal(Seq<char>),
}

/// The component that is written like this.
pub open spec fn piece_of(text: Seq<char>) -> Piece {
    if text == seq!['.'] {
        Piece::Current
    } else if text == seq!['.', '.'] {
        Piece::Parent
    } else {
        Piece::Normal(text)
    }
}

/// How a component is written, apart from the root.
pub open spec fn piece_text(piece: Piece) -> Seq<char> {
    match piece {
        Piece::Root => Seq::empty(),
        Piece::Current => seq!['.'],
        Piece::Parent => seq!['.', '.'],
        Piece::Normal(text) => text,
    }
}

/// The components from `from` on; what is empty between two separators is none.
pub open spec fn pieces_from(path: Seq<char>, from: int, verbatim: bool) -> Seq<Piece>
    decreases path.len() - from,
{
    if from < 0 || from >= path.len() {
        Seq::empty()
    } else {
        let end = part_end(path, from, verbatim);
        if end <= from || end > path.len() {
            pieces_from(path, from + 1, verbatim)
        } else {
            seq![piece_of(path.subrange(from, end))] + pieces_from(path, end, verbatim)
        }
    }
}

/// The components of a path behind its prefix.
pub open spec fn components(path: Seq<char>) -> Seq<Piece> {
    let n = prefix_len(path);
    if n < path.len() && is_separator_spec(path[n]) {
        seq![Piece::Root] + pieces_from(path, n + 1, is_verbatim(path))
    } else {
        pieces_from(path, n, is_verbatim(path))
    }
}

/// The components that are reached from `base` by way of `more`: a root leaves nothing before it, a
/// lone dot stays, and two dots lead back by one name, where there is one.
pub open spec fn resolved(base: Seq<Piece>, more: Seq<Piece>) -> Seq<Piece>
    decreases more.len(),
{
    if more.len() == 0 {
        base
    } else {
        let before = resolved(base, more.drop_last());
        match more.last() {
            Piece::Root => seq![Piece::Root],
            Piece::Current => before,
            Piece::Parent => if before.len() > 0 && before.last() is Normal {
                before.drop_last()
            } else {
                before
            },
            Piece::Normal(_) => before.push(more.last()),
        }
    }
}

/// The path of a prefix and the components behind it, with one backslash before each.
pub open spec fn rejoined(prefix: Seq<char>, pieces: Seq<Piece>) -> Seq<char>
    decreases pieces.len(),
{
    if pieces.len() == 0 {
        prefix
    } else {
        let before = rejoined(prefix, pieces.drop_last());
        if pieces.last() is Root {
            before.push('\\')
        } else if pieces.len() > 1 && pieces[pieces.len() - 2] is Root {
            before + piece_text(pieces.last())
        } else {
            before.push('\\') + piece_text(pieces.last())
        }
    }
}

/// The path that follows when `name` is opened from within `path`: a name with a prefix stands for
/// itself; behind `\\?\` a name is resolved component by component; elsewhere one with a separator at
/// its head keeps the prefix of `path`, and any other is put below `path` as it is.
pub open spec fn join_path(path: Seq<char>, name: Seq<char>) -> Seq<char> {
    if prefix_len(name) > 0 {
        name
    } else if is_verbatim(path) && name.len() > 0 {
        rejoined(path.take(prefix_len(path)), resolved(components(path), components(name)))
    } else if name.len() > 0 && is_separator_spec(name[0]) {
        path.take(prefix_len(path)) + name
    } else if path.len() == 0 || is_separator_spec(path.last()) || (path.len() == 2 && has_drive(
        path,
    )) {
        path + name
    } else {
        path.push('\\') + name
    }
}

/// Whether the path begins with a drive designator.
pub fn begins_with_drive(path: &[char]) -> (r: bool)
    ensures
        r == has_drive(path@),
{
    path.len() >= 2 && is_ascii_letter(path[0]) && path[1] == ':'
}

fn begins_with_two_separators(path: &[char]) -> (r: bool)
    ensures
        r == has_two_separators(path@),
{
    path.len() >= 2 && is_separator(path[0]) && is_separator(path[1])
}

fn begins_verbatim(path: &[char]) -> (r: bool)
    ensures
        r == is_verbatim(path@),
{
    path.len() >= 4 && path[0] == '\\' && path[1] == '\\' && path[2] == '?' && path[3] == '\\'
}

fn begins_with_device(path: &[char]) -> (r: bool)
    ensures
        r == is_device(path@),
{
    path.len() >= 4 && begins_with_two_separators(path) && path[2] == '.' && is_separator(path[3])
}

fn begins_with_verbatim_share(path: &[char]) -> (r: bool)
    ensures
        r == is_verbatim_share(path@),
{
    path.len() >= 8 && begins_verbatim(path) && path[4] == 'U' && path[5] == 'N' && path[6] == 'C'
        && is_separator(path[7])
}

fn begins_with_verbatim_drive(path: &[char]) -> (r: bool)
    ensures
        r == is_verbatim_drive(path@),
{
    path.len() >= 6 && begins_verbatim(path) && is_ascii_letter(path[4]) && path[5] == ':' && (
    path.len() == 6 || is_separator(path[6]))
}

fn find_part_end(path: &[char], from: usize, verbatim: bool) -> (r: usize)
    requires
        from <= path@.len(),
    ensures
        r == part_end(path@, from as int, verbatim),
        from <= r <= path@.len(),
{
    let mut i: usize = from;
    while i < path.len() && !is_part(verbatim, path[i])
        invariant
            from <= i <= path@.len(),
            part_end(path@, from as int, verbatim) == part_end(path@, i as int, verbatim),
        decreases path@.len() - i,
    {
        i += 1;
    }
    i
}

fn find_share_end(path: &[char], from: usize, verbatim: bool) -> (r: usize)
    requires
        from <= path@.len(),
    ensures
        r == share_end(path@, from as int, verbatim),
        from <= r <= path@.len(),
{
    let server = find_part_end(path, from, verbatim);
    if server < path.len() {
        let share = find_part_end(path, server + 1, verbatim);
        if share > server + 1 {
            return share;
        }
    }
    server
}

/// How many characters the prefix takes; see [`prefix_len`].
pub fn prefix_length(path: &[char]) -> (r: usize)
    ensures
        r == prefix_len(path@),
        r <= path@.len(),
{
    if begins_with_drive(path) {
        2
    } else if !begins_with_two_separators(path) {
        0
    } else if begins_with_verbatim_share(path) {
        find_share_end(path, 8, true)
    } else if begins_with_verbatim_drive(path) {
        6
    } else if begins_verbatim(path) {
        find_part_end(path, 4, true)
    } else if begins_with_device(path) {
        find_part_end(path, 4, false)
    } else {
        let server = find_part_end(path, 2, false);
        let share = find_share_end(path, 2, false);
        if server > 2 && share > server {
            share
        } else {
            0
        }
    }
}

/// A component of a path.
enum Part {
    Root,
    Current,
    Parent,
    Normal(String),
}

impl View for Part {
    type V = Piece;

    closed spec fn view(&self) -> Piece {
        match self {
            Part::Root => Piece::Root,
            Part::Current => Piece::Current,
            Part::Parent => Piece::Parent,
            Part::Normal(text) => Piece::Normal(text@),
        }
    }
}

spec fn pieces_view(parts: Seq<Part>) -> Seq<Piece> {
    parts.map_values(|part: Part| part@)
}

fn part_of(v: &[char], from: usize, to: usize) -> (r: Part)
    requires
        from < to <= v@.len(),
    ensures
        r@ == piece_of(v@.subrange(from as int, to as int)),
{
    let ghost text = v@.subrange(from as int, to as int);
    assert(text[0] == v@[from as int]);
    if to - from == 1 && v[from] == '.' {
        assert(text =~= seq!['.']);
        return Part::Current;
    }
    if to - from == 2 && v[from] == '.' && v[from + 1] == '.' {
        assert(text =~= seq!['.', '.']);
        return Part::Parent;
    }
    proof {
        if text == seq!['.'] {
            assert(text.len() == 1 && text[0] == '.');
        }
        if text == seq!['.', '.'] {
            assert(text.len() == 2 && text[0] == '.' && text[1] == '.');
            assert(text[1] == v@[from + 1]);
        }
    }
    Part::Normal(string_of(v, from, to))
}

/// The components of a path behind its prefix.
fn parts_of(v: &[char]) -> (r: Vec<Part>)
    ensures
        pieces_view(r@) == components(v@),
{
    let verbatim = begins_verbatim(v);
    let mut i = prefix_length(v);
    let mut parts: Vec<Part> = Vec::new();
    if i < v.len() && is_separator(v[i]) {
        parts.push(Part::Root);
        i += 1;
        assert(pieces_view(parts@) =~= seq![Piece::Root]);
    } else {
        assert(pieces_view(parts@) =~= Seq::<Piece>::empty());
    }
    assert(pieces_view(parts@) + pieces_from(v@, i as int, verbatim) =~= components(v@));
    while i < v.len()
        invariant
            i <= v@.len(),
            pieces_view(parts@) + pieces_from(v@, i as int, verbatim) == components(v@),
        decreases v@.len() - i,
    {
        let end = find_part_end(v, i, verbatim);
        if end == i {
            i += 1;
        } else {
            let ghost before = parts@;
            let part = part_of(v, i, end);
            let ghost piece = part@;
            parts.push(part);
            proof {
                assert(pieces_view(parts@) =~= pieces_view(before).push(piece));
                assert(pieces_view(parts@) + pieces_from(v@, end as int, verbatim) =~= pieces_view(
                    before,
                ) + (seq![piece] + pieces_from(v@, end as int, verbatim)));
            }
            i = end;
        }
    }
    assert(pieces_view(parts@) =~= components(v@));
    parts
}

/// The components that are reached by way of `more`; see [`resolved`].
fn resolve(parts: &mut Vec<Part>, more: &Vec<Part>)
    ensures
        pieces_view(final(parts)@) == resolved(pieces_view(old(parts)@), pieces_view(more@)),
{
    let ghost base = pieces_view(parts@);
    let ghost all = pieces_view(more@);
    let mut i: usize = 0;
    assert(all.take(0) =~= Seq::<Piece>::empty());
    while i < more.len()
        invariant
            i <= more@.len(),
            all == pieces_view(more@),
            pieces_view(parts@) == resolved(base, all.take(i as int)),
        decreases more@.len() - i,
    {
        let ghost before = parts@;
        let ghost seen = all.take(i as int);
        assert(all.take(i + 1).drop_last() =~= seen);
        assert(all.take(i + 1).last() == more@[i as int]@);
        match &more[i] {
            Part::Root => {
                parts.clear();
                parts.push(Part::Root);
                assert(pieces_view(parts@) =~= seq![Piece::Root]);
            },
            Part::Current => {},
            Part::Parent => {
                let n = parts.len();
                let back = n > 0 && match &parts[n - 1] {
                    Part::Normal(_) => true,
                    _ => false,
                };
                assert(n > 0 ==> pieces_view(before).last() == before[n - 1]@);
                if back {
                    parts.pop();
                    assert(pieces_view(parts@) =~= pieces_view(before).drop_last());
                }
            },
            Part::Normal(text) => {
                parts.push(Part::Normal(text.clone()));
                assert(pieces_view(parts@) =~= pieces_view(before).push(more@[i as int]@));
            },
        }
        i += 1;
    }
    assert(all.take(all.len() as int) =~= all);
}

/// The path of a prefix and the components behind it; see [`rejoined`].
fn rejoin(prefix: String, parts: &Vec<Part>) -> (r: String)
    ensures
        r@ == rejoined(prefix@, pieces_view(parts@)),
{
    let ghost head = prefix@;
    let ghost all = pieces_view(parts@);
    let mut r = prefix;
    let mut parted = false;
    let mut i: usize = 0;
    assert(all.take(0) =~= Seq::<Piece>::empty());
    while i < parts.len()
        invariant
            i <= parts@.len(),
            all == pieces_view(parts@),
            r@ == rejoined(head, all.take(i as int)),
            parted == (i > 0 && all[i - 1] is Root),
        decreases parts@.len() - i,
    {
        let ghost before = r@;
        let ghost next = all.take(i + 1);
        assert(next.drop_last() =~= all.take(i as int));
        assert(next.last() == parts@[i as int]@);
        assert(i > 0 ==> next[next.len() - 2] == all[i - 1]);
        if !parted {
            r.push('\\');
        }
        match &parts[i] {
            Part::Root => {
                if parted {
                    r.push('\\');
                }
                parted = true;
            },
            Part::Current => {
                r.push('.');
                parted = false;
                assert(r@ =~= rejoined(head, next));
            },
            Part::Parent => {
                r.push('.');
                r.push('.');
                parted = false;
                assert(r@ =~= rejoined(head, next));
            },
            Part::Normal(text) => {
                push_text(&mut r, text);
                parted = false;
                assert(r@ =~= rejoined(head, next));
            },
        }
        i += 1;
    }
    assert(all.take(all.len() as int) =~= all);
    r
}

/// The path that follows when `name` is opened from within `path`; see [`join_path`].
pub fn join(path: &str, name: &str) -> (r: String)
    ensures
        r@ == join_path(path@, name@),
{
    let base = chars_of(path);
    let next = chars_of(name);
    if prefix_length(&next) > 0 {
        return name.to_owned();
    }
    if begins_verbatim(&base) && next.len() > 0 {
        let keep = prefix_length(&base);
        let mut parts = parts_of(&base);
        resolve(&mut parts, &parts_of(&next));
        assert(base@.subrange(0, keep as int) =~= base@.take(keep as int));
        return rejoin(string_of(&base, 0, keep), &parts);
    }
    if next.len() > 0 && is_separator(next[0]) {
        let keep = prefix_length(&base);
        let mut r = string_of(&base, 0, keep);
        assert(base@.subrange(0, keep as int) =~= base@.take(keep as int));
        push_text(&mut r, name);
        return r;
    }
    let bare = base.len() == 0 || is_separator(base[base.len() - 1]) || (base.len() == 2
        && begins_with_drive(&base));
    let mut r = path.to_owned();
    if !bare {
        r.push('\\');
    }
    push_text(&mut r, name);
    r
}

/// `body` without the separators at its end, and without the components there that are a lone dot,
/// which are left where components are taken as they are written.
pub open spec fn without_tail(body: Seq<char>, verbatim: bool) -> Seq<char>
    decreases body.len(),
{
    if body.len() > 0 && parts_at(verbatim, body.last()) {
        without_tail(body.drop_last(), verbatim)
    } else if !verbatim && body.len() >= 2 && body.last() == '.' && parts_at(
        verbatim,
        body[body.len() - 2],
    ) {
        without_tail(body.drop_last(), verbatim)
    } else {
        body
    }
}

/// Where the last component of `body` begins: behind the last separator.
pub open spec fn component_start(body: Seq<char>, verbatim: bool) -> int
    decreases body.len(),
{
    if body.len() == 0 || parts_at(verbatim, body.last()) {
        body.len() as int
    } else {
        component_start(body.drop_last(), verbatim)
    }
}

/// The path behind its prefix, with a backslash for the root, which either separator can stand for.
pub open spec fn behind_prefix(path: Seq<char>) -> Seq<char> {
    let rest = path.skip(prefix_len(path));
    if rest.len() > 0 && is_separator_spec(rest[0]) {
        rest.update(0, '\\')
    } else {
        rest
    }
}

/// The path behind its prefix, without separators and lone dots at its end.
pub open spec fn path_body(path: Seq<char>) -> Seq<char> {
    without_tail(behind_prefix(path), is_verbatim(path))
}

/// The last component of the path, empty where the path is nothing but a prefix or a root.
pub open spec fn last_component(path: Seq<char>) -> Seq<char> {
    let body = path_body(path);
    body.skip(component_start(body, is_verbatim(path)))
}

/// The name of the file or directory that the path leads to.
pub open spec fn file_name_spec(path: Seq<char>) -> Option<Seq<char>> {
    let name = last_component(path);
    if name.len() == 0 || name == seq!['.'] || name == seq!['.', '.'] {
        None
    } else {
        Some(name)
    }
}

/// The path of the directory that holds what the path leads to.
pub open spec fn parent_spec(path: Seq<char>) -> Option<Seq<char>> {
    let body = path_body(path);
    let start = component_start(body, is_verbatim(path));
    if start == body.len() {
        None
    } else {
        let above = without_tail(body.take(start), is_verbatim(path));
        Some(
            path.take(
                prefix_len(path) + if above.len() == 0 && start > 0 {
                    1
                } else {
                    above.len() as int
                },
            ),
        )
    }
}

/// Where the last dot of `s` stands, or -1.
pub open spec fn last_dot(s: Seq<char>) -> int
    decreases s.len(),
{
    if s.len() == 0 {
        -1
    } else if s.last() == '.' {
        s.len() - 1
    } else {
        last_dot(s.drop_last())
    }
}

/// What stands behind the last dot of the file name, unless that dot is its first character.
pub open spec fn extension_spec(path: Seq<char>) -> Option<Seq<char>> {
    match file_name_spec(path) {
        Some(name) => if last_dot(name) <= 0 {
            None
        } else {
            Some(name.skip(last_dot(name) + 1))
        },
        None => None,
    }
}

fn is_part(verbatim: bool, c: char) -> (r: bool)
    ensures
        r == parts_at(verbatim, c),
{
    c == '\\' || (!verbatim && is_separator(c))
}

/// Where `v[from..to]` ends without its tail of separators and lone dots.
fn tail_end(v: &[char], from: usize, to: usize, verbatim: bool) -> (end: usize)
    requires
        from <= to <= v@.len(),
    ensures
        from <= end <= to,
        v@.subrange(from as int, end as int) == without_tail(
            v@.subrange(from as int, to as int),
            verbatim,
        ),
{
    let mut end: usize = to;
    let ghost whole = v@.subrange(from as int, to as int);
    while end > from && (is_part(verbatim, v[end - 1]) || (!verbatim && end - from >= 2 && v[end - 1]
        == '.' && is_part(verbatim, v[end - 2])))
        invariant
            from <= end <= to <= v@.len(),
            whole == v@.subrange(from as int, to as int),
            without_tail(v@.subrange(from as int, end as int), verbatim) == without_tail(
                whole,
                verbatim,
            ),
        decreases end,
    {
        let ghost part = v@.subrange(from as int, end as int);
        assert(part.drop_last() =~= v@.subrange(from as int, end - 1));
        end -= 1;
    }
    end
}

/// Where the last component of `v[from..to]` begins.
fn component_begin(v: &[char], from: usize, to: usize, verbatim: bool) -> (start: usize)
    requires
        from <= to <= v@.len(),
    ensures
        from <= start <= to,
        start - from == component_start(v@.subrange(from as int, to as int), verbatim),
{
    let mut start: usize = to;
    let ghost whole = v@.subrange(from as int, to as int);
    while start > from && !is_part(verbatim, v[start - 1])
        invariant
            from <= start <= to <= v@.len(),
            whole == v@.subrange(from as int, to as int),
            component_start(v@.subrange(from as int, start as int), verbatim) == component_start(
                whole,
                verbatim,
            ),
        decreases start,
    {
        assert(v@.subrange(from as int, start as int).drop_last() =~= v@.subrange(
            from as int,
            start - 1,
        ));
        start -= 1;
    }
    start
}

/// A path with a backslash for its root, and the place of the prefix's end, of the last component's
/// start and of its end.
fn split(path: &str) -> (r: (Vec<char>, usize, usize, usize))
    ensures
        r.0@ == path@.take(prefix_len(path@)) + behind_prefix(path@),
        r.0@.len() == path@.len(),
        r.1 <= r.2 <= r.3 <= path@.len(),
        r.1 == prefix_len(path@),
        r.0@.subrange(r.1 as int, r.3 as int) == path_body(path@),
        r.2 - r.1 == component_start(path_body(path@), is_verbatim(path@)),
        r.0@.subrange(r.2 as int, r.3 as int) == last_component(path@),
{
    let mut v = chars_of(path);
    let from = prefix_length(&v);
    let verbatim = begins_verbatim(&v);
    if from < v.len() && is_separator(v[from]) {
        v.set(from, '\\');
    }
    assert(v@ =~= path@.take(from as int) + behind_prefix(path@));
    let end = tail_end(&v, from, v.len(), verbatim);
    let start = component_begin(&v, from, end, verbatim);
    assert(v@.subrange(from as int, v@.len() as int) =~= behind_prefix(path@));
    assert(v@.subrange(start as int, end as int) =~= path_body(path@).skip(start - from));
    (v, from, start, end)
}

/// The name of the file or directory that the path leads to.
pub fn file_name(path: &str) -> (r: Option<String>)
    ensures
        r is Some == file_name_spec(path@) is Some,
        r matches Some(name) ==> name@ == file_name_spec(path@)->0,
{
    let (v, _, start, end) = split(path);
    if start == end {
        return None;
    }
    match part_of(&v, start, end) {
        Part::Normal(name) => Some(name),
        _ => None,
    }
}

/// The path of the directory that holds what the path leads to.
pub fn parent(path: &str) -> (r: Option<String>)
    ensures
        r is Some == parent_spec(path@) is Some,
        r matches Some(p) ==> p@ == parent_spec(path@)->0,
{
    let (v, from, start, end) = split(path);
    if start == end {
        return None;
    }
    let own = chars_of(path);
    let above = tail_end(&v, from, start, begins_verbatim(&own));
    let cut: usize = if above == from && start > from {
        from + 1
    } else {
        above
    };
    let r = string_of(&own, 0, cut);
    proof {
        let body = path_body(path@);
        let verbatim = is_verbatim(path@);
        assert(v@.subrange(from as int, start as int) =~= body.take(start - from));
        assert(without_tail(body.take(start - from), verbatim).len() == above - from);
        assert(r@ =~= path@.take(cut as int));
        assert(body.len() == end - from);
        assert(parent_spec(path@) == Some(path@.take(cut as int)));
    }
    Some(r)
}

/// What stands behind the last dot of the file name, unless that dot is its first character.
pub fn extension(path: &str) -> (r: Option<String>)
    ensures
        r is Some == extension_spec(path@) is Some,
        r matches Some(e) ==> e@ == extension_spec(path@)->0,
{
    match file_name(path) {
        None => None,
        Some(name) => {
            let v = chars_of(&name);
            let mut i: usize = v.len();
            assert(v@.take(v@.len() as int) =~= v@);
            while i > 0 && v[i - 1] != '.'
                invariant
                    i <= v@.len(),
                    last_dot(v@.take(i as int)) == last_dot(v@),
                decreases i,
            {
                assert(v@.take(i as int).drop_last() =~= v@.take(i - 1));
                i -= 1;
            }
            if i <= 1 {
                None
            } else {
                assert(v@.subrange(i as int, v@.len() as int) =~= v@.skip(last_dot(v@) + 1));
                Some(string_of(&v, i, v.len()))
            }
        },
    }
}

/// A component ends at a separator that stands behind its beginning.
pub proof fn lemma_part_ends(path: Seq<char>, from: int, verbatim: bool, at: int)
    requires
        0 <= from <= at < path.len(),
        parts_at(verbatim, path[at]),
    ensures
        from <= part_end(path, from, verbatim) <= at,
    decreases at - from,
{
    if from < at {
        lemma_part_ends(path, from + 1, verbatim, at);
    }
}

/// A component ends where it did when the path goes on behind a backslash.
proof fn lemma_part_stays(path: Seq<char>, more: Seq<char>, from: int, verbatim: bool)
    requires
        0 <= from <= path.len(),
        more.len() > 0,
        more[0] == '\\',
    ensures
        part_end(path + more, from, verbatim) == part_end(path, from, verbatim),
        from <= part_end(path, from, verbatim) <= path.len(),
    decreases path.len() - from,
{
    let whole = path + more;
    if from < path.len() {
        assert(whole[from] == path[from]);
        if !parts_at(verbatim, path[from]) {
            lemma_part_stays(path, more, from + 1, verbatim);
        }
    } else {
        assert(whole[from] == '\\');
    }
}

/// A share is named as before when the path goes on behind a backslash.
proof fn lemma_share_stays(path: Seq<char>, more: Seq<char>, from: int, verbatim: bool)
    requires
        0 <= from <= path.len(),
        more.len() > 0,
        more[0] == '\\',
        part_end(path, from, verbatim) < path.len(),
    ensures
        share_end(path + more, from, verbatim) == share_end(path, from, verbatim),
        part_end(path + more, from, verbatim) == part_end(path, from, verbatim),
{
    lemma_part_stays(path, more, from, verbatim);
    lemma_part_stays(path, more, part_end(path, from, verbatim) + 1, verbatim);
}

/// The prefix stays when the path goes on behind a backslash, unless that turns a server's name into
/// a share.
pub proof fn lemma_prefix_stays(path: Seq<char>, more: Seq<char>)
    requires
        path.len() > 0,
        path.len() == 1 ==> !is_separator_spec(path[0]),
        !is_bare_server(path),
        more.len() > 0,
        more[0] == '\\',
    ensures
        prefix_len(path + more) == prefix_len(path),
        is_verbatim(path + more) == is_verbatim(path),
{
    let whole = path + more;
    assert(forall|i: int| 0 <= i < path.len() ==> whole[i] == path[i]);
    assert(whole[path.len() as int] == '\\');
    if path.len() >= 2 && has_two_separators(path) {
        if path.len() == 2 {
            assert(part_end(path, 2, false) == 2);
        }
        if path.len() == 3 && !is_separator_spec(path[2]) {
            assert(part_end(path, 3, false) == 3);
            assert(part_end(path, 2, false) == 3);
        }
        if is_verbatim(path) {
            assert(is_verbatim_share(whole) == is_verbatim_share(path));
            lemma_part_stays(path, more, 4, true);
            if is_verbatim_share(path) {
                lemma_part_stays(path, more, 8, true);
                lemma_share_stays(path, more, 8, true);
            } else {
                assert(is_verbatim_drive(whole) == is_verbatim_drive(path));
            }
        } else if path.len() >= 4 {
            assert(!is_verbatim(whole));
            assert(is_device(whole) == is_device(path));
            if is_device(path) {
                lemma_part_stays(path, more, 4, false);
            } else {
                lemma_part_stays(path, more, 2, false);
                lemma_share_stays(path, more, 2, false);
            }
        } else {
            assert(path.len() == 3 && is_separator_spec(path[2]));
            assert(part_end(path, 2, false) == 2);
            assert(part_end(whole, 2, false) == 2);
        }
    }
}

/// Whether the text can name a file: it has no separator and no colon, and is not made of one or two
/// dots.
pub open spec fn is_plain_name(name: Seq<char>) -> bool {
    &&& name.len() > 0
    &&& forall|i: int|
        0 <= i < name.len() ==> !is_separator_spec(#[trigger] name[i]) && name[i] != ':'
    &&& name != seq!['.']
    &&& name != seq!['.', '.']
}

/// The path as it is written where something is joined to it: behind `\\?\` with one backslash before
/// each component, elsewhere as it is.
pub open spec fn tidied(path: Seq<char>) -> Seq<char> {
    if is_verbatim(path) {
        rejoined(path.take(prefix_len(path)), components(path))
    } else {
        path
    }
}

/// Whether a root stands only before everything else, and no other component is empty or holds a
/// backslash.
spec fn are_proper(pieces: Seq<Piece>) -> bool {
    forall|k: int| #![trigger pieces[k]]
        0 <= k < pieces.len() ==> if pieces[k] is Root {
            k == 0
        } else {
            piece_text(pieces[k]).len() > 0 && !piece_text(pieces[k]).contains('\\')
        }
}

proof fn lemma_piece_text(text: Seq<char>)
    ensures
        piece_text(piece_of(text)) == text,
        !(piece_of(text) is Root),
{
}

proof fn lemma_pieces_proper(path: Seq<char>, from: int, verbatim: bool)
    requires
        0 <= from,
    ensures
        forall|k: int| #![trigger pieces_from(path, from, verbatim)[k]]
            0 <= k < pieces_from(path, from, verbatim).len() ==> {
                let piece = pieces_from(path, from, verbatim)[k];
                !(piece is Root) && piece_text(piece).len() > 0 && !piece_text(piece).contains('\\')
            },
    decreases path.len() - from,
{
    if from < path.len() {
        lemma_part_fits(path, from, verbatim);
        let end = part_end(path, from, verbatim);
        if end <= from {
            lemma_pieces_proper(path, from + 1, verbatim);
        } else {
            lemma_pieces_proper(path, end, verbatim);
            let text = path.subrange(from, end);
            lemma_piece_text(text);
            assert(!text.contains('\\')) by {
                assert forall|i: int| 0 <= i < text.len() implies text[i] != '\\' by {
                    assert(text[i] == path[from + i]);
                }
            }
            let rest = pieces_from(path, end, verbatim);
            let all = pieces_from(path, from, verbatim);
            assert(all == seq![piece_of(text)] + rest);
            assert forall|k: int| #![trigger all[k]] 0 <= k < all.len() implies {
                let piece = all[k];
                !(piece is Root) && piece_text(piece).len() > 0 && !piece_text(piece).contains('\\')
            } by {
                if k > 0 {
                    assert(all[k] == rest[k - 1]);
                }
            }
        }
    }
}

proof fn lemma_components_proper(path: Seq<char>)
    ensures
        are_proper(components(path)),
{
    let n = prefix_len(path);
    let verbatim = is_verbatim(path);
    lemma_prefix_fits(path);
    if n < path.len() && is_separator_spec(path[n]) {
        lemma_pieces_proper(path, n + 1, verbatim);
        let rest = pieces_from(path, n + 1, verbatim);
        let all = components(path);
        assert forall|k: int| #![trigger all[k]] 0 <= k < all.len() implies if all[k] is Root {
            k == 0
        } else {
            piece_text(all[k]).len() > 0 && !piece_text(all[k]).contains('\\')
        } by {
            if k > 0 {
                assert(all[k] == rest[k - 1]);
            }
        }
    } else {
        lemma_pieces_proper(path, n, verbatim);
    }
}

proof fn lemma_resolved_proper(base: Seq<Piece>, more: Seq<Piece>)
    requires
        are_proper(base),
        are_proper(more),
    ensures
        are_proper(resolved(base, more)),
    decreases more.len(),
{
    if more.len() > 0 {
        let fewer = more.drop_last();
        assert(are_proper(fewer)) by {
            assert forall|k: int| #![trigger fewer[k]] 0 <= k < fewer.len() implies if fewer[k] is Root {
                k == 0
            } else {
                piece_text(fewer[k]).len() > 0 && !piece_text(fewer[k]).contains('\\')
            } by {
                assert(fewer[k] == more[k]);
            }
        }
        lemma_resolved_proper(base, fewer);
        let before = resolved(base, fewer);
        assert(more.last() == more[more.len() - 1]);
        let after = resolved(base, more);
        assert forall|k: int| #![trigger after[k]] 0 <= k < after.len() implies if after[k] is Root {
            k == 0
        } else {
            piece_text(after[k]).len() > 0 && !piece_text(after[k]).contains('\\')
        } by {
            if k < before.len() && !(more.last() is Root) {
                assert(after[k] == before[k]);
            }
        }
    }
}

/// Whether the path goes on from `at` on with components that have one backslash before each of them.
spec fn is_neat_from(path: Seq<char>, at: int) -> bool {
    &&& 0 <= at < path.len()
    &&& path[at] == '\\'
    &&& path.last() != '\\'
    &&& forall|i: int| #![trigger path[i]]
        at <= i < path.len() - 1 && path[i] == '\\' ==> path[i + 1] != '\\'
}

proof fn lemma_written_neatly(prefix: Seq<char>, pieces: Seq<Piece>)
    requires
        are_proper(pieces),
        pieces.len() > 0,
    ensures
        rejoined(prefix, pieces).len() > prefix.len(),
        rejoined(prefix, pieces).take(prefix.len() as int) == prefix,
        rejoined(prefix, pieces)[prefix.len() as int] == '\\',
        pieces.last() is Root ==> rejoined(prefix, pieces) == prefix.push('\\'),
        !(pieces.last() is Root) ==> is_neat_from(rejoined(prefix, pieces), prefix.len() as int),
    decreases pieces.len(),
{
    let fewer = pieces.drop_last();
    let last = pieces.last();
    let text = piece_text(last);
    let before = rejoined(prefix, fewer);
    let whole = rejoined(prefix, pieces);
    let n = prefix.len() as int;
    assert(last == pieces[pieces.len() - 1]);
    assert(are_proper(fewer)) by {
        assert forall|k: int| #![trigger fewer[k]] 0 <= k < fewer.len() implies if fewer[k] is Root {
            k == 0
        } else {
            piece_text(fewer[k]).len() > 0 && !piece_text(fewer[k]).contains('\\')
        } by {
            assert(fewer[k] == pieces[k]);
        }
    }
    if fewer.len() == 0 {
        assert(before == prefix);
    } else {
        lemma_written_neatly(prefix, fewer);
        assert(fewer.last() == pieces[pieces.len() - 2]);
    }
    if last is Root {
        assert(pieces.len() == 1);
        assert(whole.take(n) =~= prefix);
    } else {
        let head = if pieces.len() > 1 && pieces[pieces.len() - 2] is Root {
            before
        } else {
            before.push('\\')
        };
        assert(whole == head + text);
        assert(whole.take(n) =~= before.take(n));
        assert(before.len() == n ==> before.take(n) =~= prefix);
        assert(whole.last() == text[text.len() - 1]);
        assert(text.contains(text[text.len() - 1]));
        assert(head.last() == '\\');
        assert(head.len() >= 2 && head.len() - 2 >= n ==> head[head.len() - 2] != '\\') by {
            if head.len() >= 2 && head.len() - 2 >= n {
                assert(pieces.len() > 1 && !(fewer.last() is Root));
                assert(before.last() != '\\');
            }
        }
        assert forall|i: int| #![trigger whole[i]] n <= i < whole.len() - 1 && whole[i]
            == '\\' implies whole[i + 1] != '\\' by {
            if i >= head.len() {
                assert(text[i - head.len()] == '\\');
                assert(text.contains('\\'));
            } else if i == head.len() - 1 {
                assert(whole[i + 1] == text[0]);
                assert(text.contains(text[0]));
            } else if i == head.len() - 2 {
                assert(whole[i] == head[i]);
            } else {
                assert(whole[i] == before[i] && whole[i + 1] == before[i + 1]);
            }
        }
    }
}

proof fn lemma_read_neatly(prefix: Seq<char>, done: Seq<Piece>, path: Seq<char>, from: int)
    requires
        done.len() > 0,
        0 < from < path.len(),
        is_neat_from(path, from - 1),
        rejoined(prefix, done) == path.take(
            if done.last() is Root {
                from
            } else {
                from - 1
            },
        ),
    ensures
        rejoined(prefix, done + pieces_from(path, from, true)) == path,
    decreases path.len() - from,
{
    lemma_part_fits(path, from, true);
    let end = part_end(path, from, true);
    let rest = pieces_from(path, end, true);
    assert(path[from - 1] == '\\');
    assert(end > from);
    let text = path.subrange(from, end);
    let piece = piece_of(text);
    lemma_piece_text(text);
    let next = done.push(piece);
    assert(next.drop_last() =~= done);
    assert(next[next.len() - 2] == done.last());
    assert(rejoined(prefix, next) =~= path.take(end));
    assert(done + pieces_from(path, from, true) =~= next + rest);
    if end == path.len() {
        assert(next + rest =~= next);
        assert(path.take(end) =~= path);
    } else {
        assert(path[end] == '\\');
        assert(path.last() == path[path.len() - 1]);
        assert(part_end(path, end, true) == end);
        assert(rest == pieces_from(path, end + 1, true));
        assert(is_neat_from(path, end));
        lemma_read_neatly(prefix, next, path, end + 1);
    }
}

proof fn lemma_part_cut(path: Seq<char>, from: int, verbatim: bool, to: int)
    requires
        0 <= from <= part_end(path, from, verbatim) <= to <= path.len(),
    ensures
        part_end(path.take(to), from, verbatim) == part_end(path, from, verbatim),
    decreases path.len() - from,
{
    if from < path.len() && !parts_at(verbatim, path[from]) {
        lemma_part_fits(path, from + 1, verbatim);
        assert(path.take(to)[from] == path[from]);
        lemma_part_cut(path, from + 1, verbatim, to);
    } else if from < to {
        assert(path.take(to)[from] == path[from]);
    }
}

/// The prefix of a path behind `\\?\` is all prefix.
proof fn lemma_prefix_alone(path: Seq<char>)
    requires
        is_verbatim(path),
    ensures
        4 <= prefix_len(path) <= path.len(),
        is_verbatim(path.take(prefix_len(path))),
        prefix_len(path.take(prefix_len(path))) == prefix_len(path),
        prefix_len(path) < path.len() ==> is_separator_spec(path[prefix_len(path)]),
{
    let n = prefix_len(path);
    let head = path.take(n);
    lemma_prefix_fits(path);
    lemma_part_fits(path, 4, true);
    if is_verbatim_share(path) {
        let server = part_end(path, 8, true);
        lemma_part_fits(path, 8, true);
        if server < path.len() {
            lemma_part_fits(path, server + 1, true);
        }
        assert(is_verbatim_share(head));
        lemma_part_cut(path, 8, true, n);
        if n > server {
            lemma_part_cut(path, server + 1, true, n);
        }
    } else if is_verbatim_drive(path) {
        assert(is_verbatim_drive(head));
    } else {
        lemma_part_cut(path, 4, true, n);
        assert(!is_verbatim_share(head));
        assert(!is_verbatim_drive(head));
    }
}

/// A prefix behind `\\?\` stays part of the prefix when the path goes on behind a backslash.
proof fn lemma_prefix_grows(head: Seq<char>, more: Seq<char>)
    requires
        is_verbatim(head),
        prefix_len(head) == head.len(),
        more.len() > 0,
        more[0] == '\\',
    ensures
        is_verbatim(head + more),
        head.len() <= prefix_len(head + more) <= (head + more).len(),
        prefix_len(head + more) < (head + more).len() ==> (head + more)[prefix_len(head + more)]
            == '\\',
{
    let whole = head + more;
    assert(forall|i: int| 0 <= i < head.len() ==> whole[i] == head[i]);
    assert(whole[head.len() as int] == '\\');
    lemma_prefix_fits(whole);
    if is_bare_server(head) {
        assert(is_verbatim_share(whole));
        lemma_part_fits(whole, 8, true);
        let server = part_end(whole, 8, true);
        if server < whole.len() {
            lemma_part_fits(whole, server + 1, true);
        }
        if is_verbatim_share(head) {
            lemma_part_stays(head, more, 8, true);
        }
    } else {
        lemma_prefix_stays(head, more);
    }
}

proof fn lemma_written_is_tidy(prefix: Seq<char>, pieces: Seq<Piece>)
    requires
        is_verbatim(prefix),
        prefix_len(prefix) == prefix.len(),
        are_proper(pieces),
    ensures
        is_verbatim(rejoined(prefix, pieces)),
        tidied(rejoined(prefix, pieces)) == rejoined(prefix, pieces),
{
    let path = rejoined(prefix, pieces);
    if pieces.len() == 0 {
        assert(path.take(path.len() as int) =~= path);
        assert(components(path) =~= Seq::<Piece>::empty());
    } else {
        lemma_written_neatly(prefix, pieces);
        let more = path.skip(prefix.len() as int);
        assert(path =~= prefix + more);
        lemma_prefix_grows(prefix, more);
        let n = prefix_len(path);
        let head = path.take(n);
        if n == path.len() {
            assert(head =~= path);
            assert(components(path) =~= Seq::<Piece>::empty());
        } else {
            let root = seq![Piece::Root];
            assert(root.drop_last() =~= Seq::<Piece>::empty());
            assert(rejoined(head, root.drop_last()) == head);
            assert(rejoined(head, root) == head.push('\\'));
            assert(head.push('\\') =~= path.take(n + 1));
            if pieces.last() is Root {
                assert(n + 1 == path.len());
                assert(pieces_from(path, n + 1, true) =~= Seq::<Piece>::empty());
                assert(components(path) =~= root);
                assert(path.take(n + 1) =~= path);
            } else {
                assert(n + 1 < path.len()) by {
                    assert(path.last() == path[path.len() - 1]);
                }
                assert(is_neat_from(path, n));
                lemma_read_neatly(head, root, path, n + 1);
            }
        }
    }
}

/// A path that is written as it is joined to stays as it is.
pub proof fn a_tidied_path_stays(path: Seq<char>)
    ensures
        tidied(tidied(path)) == tidied(path),
{
    if is_verbatim(path) {
        lemma_prefix_alone(path);
        lemma_components_proper(path);
        lemma_written_is_tidy(path.take(prefix_len(path)), components(path));
    }
}

/// What is joined to a path behind `\\?\` has one backslash before each of its components.
pub proof fn joining_tidies(path: Seq<char>, name: Seq<char>)
    requires
        is_verbatim(path),
        name.len() > 0,
        prefix_len(name) == 0,
    ensures
        is_verbatim(join_path(path, name)),
        tidied(join_path(path, name)) == join_path(path, name),
{
    lemma_prefix_alone(path);
    lemma_components_proper(path);
    lemma_components_proper(name);
    lemma_resolved_proper(components(path), components(name));
    lemma_written_is_tidy(
        path.take(prefix_len(path)),
        resolved(components(path), components(name)),
    );
}

/// Behind `\\?\` a lone dot leads nowhere else.
pub proof fn a_dot_stays(path: Seq<char>)
    requires
        is_verbatim(path),
    ensures
        join_path(path, seq!['.']) == tidied(path),
{
    let name = seq!['.'];
    let pieces = components(path);
    lemma_only_piece(name);
    assert(components(name).drop_last() =~= Seq::<Piece>::empty());
    assert(resolved(pieces, components(name).drop_last()) == pieces);
}

/// Behind `\\?\` two dots lead back from what a plain name leads to.
pub proof fn two_dots_lead_back(path: Seq<char>, name: Seq<char>)
    requires
        is_verbatim(path),
        is_plain_name(name),
    ensures
        join_path(path, name + seq!['\\', '.', '.']) == tidied(path),
{
    let back = name + seq!['\\', '.', '.'];
    let pieces = components(path);
    let up = seq!['.', '.'];
    assert forall|i: int| 0 <= i < name.len() implies back[i] == name[i] by {}
    assert(back[name.len() as int] == '\\');
    assert(!is_separator_spec(name[0]));
    assert(prefix_len(back) == 0) by {
        if has_drive(back) {
            assert(name.len() == 1 ==> back[1] == '\\');
            assert(name.len() > 1 ==> name[1] != ':');
        }
    }
    let n = name.len() as int;
    lemma_no_part_before(back, 0, n);
    assert(back.subrange(0, n) =~= name);
    assert(part_end(back, n, false) == n);
    lemma_no_part_before(back, n + 1, n + 3);
    assert(back.subrange(n + 1, n + 3) =~= up);
    assert(pieces_from(back, n + 3, false) =~= Seq::<Piece>::empty());
    assert(pieces_from(back, n + 1, false) =~= seq![Piece::Parent]);
    assert(pieces_from(back, n, false) == pieces_from(back, n + 1, false));
    let more = components(back);
    assert(!is_verbatim(back));
    assert(more =~= seq![Piece::Normal(name), Piece::Parent]);
    let first = seq![Piece::Normal(name)];
    assert(more.drop_last() =~= first);
    assert(first.drop_last() =~= Seq::<Piece>::empty());
    assert(resolved(pieces, first.drop_last()) == pieces);
    assert(resolved(pieces, first) == pieces.push(Piece::Normal(name)));
    assert(pieces.push(Piece::Normal(name)).drop_last() =~= pieces);
}

/// A component ends behind the characters that part nothing.
proof fn lemma_no_part_before(path: Seq<char>, from: int, to: int)
    requires
        0 <= from <= to <= path.len(),
        forall|i: int| from <= i < to ==> !is_separator_spec(#[trigger] path[i]),
        to == path.len() || is_separator_spec(path[to]),
    ensures
        part_end(path, from, false) == to,
    decreases to - from,
{
    if from < to {
        lemma_no_part_before(path, from + 1, to);
    }
}

/// A name without separators is one component.
proof fn lemma_only_piece(name: Seq<char>)
    requires
        name.len() > 0,
        forall|i: int| 0 <= i < name.len() ==> !is_separator_spec(#[trigger] name[i]) && name[i] != ':',
    ensures
        prefix_len(name) == 0,
        components(name) == seq![piece_of(name)],
{
    assert(!is_separator_spec(name[0]));
    if has_drive(name) {
        assert(name[1] != ':');
    }
    lemma_no_part_before(name, 0, name.len() as int);
    assert(name.subrange(0, name.len() as int) =~= name);
    assert(pieces_from(name, name.len() as int, false) =~= Seq::<Piece>::empty());
    assert(components(name) =~= seq![piece_of(name)]);
}

/// A plain name that is joined to a path stands behind it and a backslash, unless the path ends in one
/// or is a bare drive.
pub proof fn lemma_join_plain(path: Seq<char>, name: Seq<char>)
    requires
        path.len() > 0,
        tidied(path) == path,
        !parts_at(is_verbatim(path), path.last()),
        !(path.len() == 2 && has_drive(path)),
        is_plain_name(name),
    ensures
        join_path(path, name) == path.push('\\') + name,
{
    lemma_only_piece(name);
    assert(!is_separator_spec(name[0]));
    if is_verbatim(path) {
        let pieces = components(path);
        let head = path.take(prefix_len(path));
        let more = components(name);
        let all = resolved(pieces, more);
        assert(more.drop_last() =~= Seq::<Piece>::empty());
        assert(resolved(pieces, more.drop_last()) == pieces);
        assert(all == pieces.push(Piece::Normal(name)));
        assert(all.drop_last() =~= pieces);
        if pieces.len() > 0 {
            assert(all[all.len() - 2] == pieces.last());
            if pieces.last() is Root {
                assert(path.last() == '\\');
            }
        }
        assert(join_path(path, name) =~= path.push('\\') + name);
    }
}

/// A plain name that is joined to a path behind `\\?\` stands at the end of the joined path.
pub proof fn lemma_ends_in_name(path: Seq<char>, name: Seq<char>)
    requires
        is_verbatim(path),
        is_plain_name(name),
    ensures
        join_path(path, name).len() >= name.len(),
        join_path(path, name).last() == name.last(),
{
    lemma_only_piece(name);
    let pieces = components(path);
    let more = components(name);
    let all = resolved(pieces, more);
    assert(more.drop_last() =~= Seq::<Piece>::empty());
    assert(resolved(pieces, more.drop_last()) == pieces);
    assert(all == pieces.push(Piece::Normal(name)));
}

/// What a plain name behind a path and a backslash comes to.
proof fn lemma_joined(path: Seq<char>, name: Seq<char>)
    requires
        path.len() > 0,
        path.len() == 1 ==> !is_separator_spec(path[0]),
        0 <= prefix_len(path) <= path.len(),
        !is_bare_server(path),
        is_plain_name(name),
    ensures
        ({
            let whole = path.push('\\') + name;
            let body = behind_prefix(path);
            &&& is_verbatim(whole) == is_verbatim(path)
            &&& prefix_len(whole) == prefix_len(path)
            &&& path_body(whole) == body.push('\\') + name
            &&& component_start(path_body(whole), is_verbatim(path)) == body.len() + 1
            &&& file_name_spec(whole) == Some(name)
        }),
{
    let whole = path.push('\\') + name;
    let verbatim = is_verbatim(path);
    let n = prefix_len(path);
    let body = behind_prefix(path);
    let more = seq!['\\'] + name;
    assert(whole =~= path + more);
    lemma_prefix_stays(path, more);
    let rest = whole.skip(n);
    assert(rest[0] == if n < path.len() {
        path[n]
    } else {
        '\\'
    });
    let tail = behind_prefix(whole);
    assert(tail =~= body.push('\\') + name);
    assert(tail.last() == name.last());
    assert(!is_separator_spec(name[name.len() - 1]));
    assert(without_tail(tail, verbatim) == tail) by {
        if name.len() == 1 {
            if name[0] == '.' {
                assert(name =~= seq!['.']);
            }
        } else {
            assert(tail[tail.len() - 2] == name[name.len() - 2]);
        }
    }
    lemma_component_behind_separator(body.push('\\'), name, verbatim);
    assert(tail.skip(component_start(tail, verbatim)) =~= name);
}

/// A plain component joined to a path that does not end in a separator is the file name of the
/// joined path, and the path is its parent. A server's name alone is not such a path: the component
/// would name a share. A path behind `\\?\` has to be written with one backslash before each of its
/// components, as it is in the joined path.
pub proof fn join_then_split(path: Seq<char>, name: Seq<char>)
    requires
        path.len() > prefix_len(path),
        behind_prefix(path) == path_body(path),
        tidied(path) == path,
        !is_bare_server(path),
        is_plain_name(name),
    ensures
        file_name_spec(join_path(path, name)) == Some(name),
        parent_spec(join_path(path, name)) == Some(path),
{
    let verbatim = is_verbatim(path);
    let n = prefix_len(path);
    let body = behind_prefix(path);
    lemma_prefix_fits(path);
    lemma_without_tail_again(body, verbatim);
    assert(body.len() == path.len() - n);
    assert(body.len() == 1 ==> !is_separator_spec(path.last())) by {
        if body.len() == 1 && is_separator_spec(path.last()) {
            assert(path.skip(n)[0] == path.last());
            assert(body[0] == '\\');
        }
    }
    assert(body.len() > 1 ==> path.last() == body.last());
    assert(body.len() == 1 ==> path.skip(n)[0] == path.last() && body[0] == path.last());
    lemma_join_plain(path, name);
    lemma_joined(path, name);
    let joined = join_path(path, name);
    let whole = path_body(joined);
    assert(whole.take(body.len() as int + 1) =~= body.push('\\'));
    assert(body.push('\\').drop_last() =~= body);
    assert(without_tail(body.push('\\'), verbatim) == body);
    assert(joined.take(n + body.len()) =~= path);
}

/// A plain component joined to a share, or to another prefix that is not a drive, is the file name of
/// the joined path, and its parent is the root there.
pub proof fn join_to_a_prefix(path: Seq<char>, name: Seq<char>)
    requires
        path.len() == prefix_len(path),
        has_two_separators(path),
        !parts_at(is_verbatim(path), path.last()),
        !is_bare_server(path),
        is_plain_name(name),
    ensures
        file_name_spec(join_path(path, name)) == Some(name),
        parent_spec(join_path(path, name)) == Some(path.push('\\')),
{
    let verbatim = is_verbatim(path);
    let n = prefix_len(path);
    let body = behind_prefix(path);
    assert(path.take(n) =~= path);
    assert(components(path) =~= Seq::<Piece>::empty());
    assert(tidied(path) == path);
    lemma_join_plain(path, name);
    lemma_joined(path, name);
    let joined = join_path(path, name);
    let whole = path_body(joined);
    assert(body =~= Seq::<char>::empty());
    assert(whole.take(1) =~= seq!['\\']);
    assert(seq!['\\'].drop_last() =~= Seq::<char>::empty());
    assert(without_tail(Seq::<char>::empty(), verbatim) == Seq::<char>::empty());
    assert(seq!['\\'].last() == '\\');
    assert(without_tail(seq!['\\'], verbatim) == Seq::<char>::empty());
    assert(joined.take(n + 1) =~= path.push('\\'));
}

proof fn lemma_part_fits(path: Seq<char>, from: int, verbatim: bool)
    requires
        0 <= from <= path.len(),
    ensures
        from <= part_end(path, from, verbatim) <= path.len(),
        part_end(path, from, verbatim) < path.len() ==> parts_at(
            verbatim,
            path[part_end(path, from, verbatim)],
        ),
        forall|i: int|
            from <= i < part_end(path, from, verbatim) ==> !parts_at(verbatim, #[trigger] path[i]),
    decreases path.len() - from,
{
    if from < path.len() && !parts_at(verbatim, path[from]) {
        lemma_part_fits(path, from + 1, verbatim);
    }
}

/// The prefix is part of the path.
pub proof fn lemma_prefix_fits(path: Seq<char>)
    ensures
        0 <= prefix_len(path) <= path.len(),
{
    if has_two_separators(path) {
        let from = if is_verbatim_share(path) {
            8int
        } else if is_verbatim(path) || is_device(path) {
            4
        } else {
            2
        };
        let verbatim = is_verbatim(path);
        lemma_part_fits(path, from, verbatim);
        let server = part_end(path, from, verbatim);
        if server < path.len() {
            lemma_part_fits(path, server + 1, verbatim);
        }
    }
}

proof fn lemma_without_tail_again(body: Seq<char>, verbatim: bool)
    ensures
        without_tail(without_tail(body, verbatim), verbatim) == without_tail(body, verbatim),
        without_tail(body, verbatim).len() > 0 ==> !parts_at(
            verbatim,
            without_tail(body, verbatim).last(),
        ),
    decreases body.len(),
{
    if body.len() > 0 && parts_at(verbatim, body.last()) {
        lemma_without_tail_again(body.drop_last(), verbatim);
    } else if !verbatim && body.len() >= 2 && body.last() == '.' && parts_at(
        verbatim,
        body[body.len() - 2],
    ) {
        lemma_without_tail_again(body.drop_last(), verbatim);
    }
}

proof fn lemma_component_behind_separator(head: Seq<char>, name: Seq<char>, verbatim: bool)
    requires
        head.len() > 0,
        parts_at(verbatim, head.last()),
        forall|i: int| 0 <= i < name.len() ==> !is_separator_spec(#[trigger] name[i]),
    ensures
        component_start(head + name, verbatim) == head.len(),
    decreases name.len(),
{
    if name.len() == 0 {
        assert(head + name =~= head);
    } else {
        assert((head + name).drop_last() =~= head + name.drop_last());
        assert((head + name).last() == name.last());
        lemma_component_behind_separator(head, name.drop_last(), verbatim);
    }
}

proof fn lemma_own_name(name: Seq<char>)
    requires
        is_plain_name(name),
    ensures
        file_name_spec(name) == Some(name),
{
    lemma_only_piece(name);
    let verbatim = is_verbatim(name);
    assert(!is_separator_spec(name[0]));
    assert(name.skip(0) =~= name);
    assert(behind_prefix(name) == name);
    assert(!is_separator_spec(name[name.len() - 1]));
    assert(name.len() >= 2 ==> !is_separator_spec(name[name.len() - 2]));
    assert(without_tail(name, verbatim) == name);
    lemma_no_separator_starts(name, verbatim);
    assert(name.skip(0) =~= name);
}

proof fn lemma_no_separator_starts(body: Seq<char>, verbatim: bool)
    requires
        forall|i: int| 0 <= i < body.len() ==> !is_separator_spec(#[trigger] body[i]),
    ensures
        component_start(body, verbatim) == 0,
    decreases body.len(),
{
    if body.len() > 0 {
        let fewer = body.drop_last();
        assert forall|i: int| 0 <= i < fewer.len() implies !is_separator_spec(#[trigger] fewer[i]) by {
            assert(fewer[i] == body[i]);
        }
        assert(!is_separator_spec(body[body.len() - 1]));
        lemma_no_separator_starts(fewer, verbatim);
    }
}

proof fn lemma_dot_before(stem: Seq<char>, own: Seq<char>)
    requires
        !own.contains('.'),
    ensures
        last_dot(stem + seq!['.'] + own) == stem.len(),
    decreases own.len(),
{
    let name = stem + seq!['.'] + own;
    if own.len() == 0 {
        assert(name.last() == '.');
    } else {
        let fewer = own.drop_last();
        assert forall|c: char| fewer.contains(c) implies own.contains(c) by {
            let i = choose|i: int| 0 <= i < fewer.len() && fewer[i] == c;
            assert(own[i] == c);
        }
        lemma_dot_before(stem, fewer);
        assert(name.drop_last() =~= stem + seq!['.'] + fewer);
        assert(name.last() == own.last());
        assert(own.contains(own[own.len() - 1]));
    }
}

proof fn lemma_no_dot(name: Seq<char>)
    requires
        !name.contains('.'),
    ensures
        last_dot(name) == -1,
    decreases name.len(),
{
    if name.len() > 0 {
        let fewer = name.drop_last();
        assert forall|c: char| fewer.contains(c) implies name.contains(c) by {
            let i = choose|i: int| 0 <= i < fewer.len() && fewer[i] == c;
            assert(name[i] == c);
        }
        assert(name.contains(name[name.len() - 1]));
        lemma_no_dot(fewer);
    }
}

/// The extension of a name is what stands behind its last dot; a name that begins with its only dot
/// has none.
pub proof fn an_extension_stands_behind_the_last_dot(stem: Seq<char>, own: Seq<char>)
    requires
        is_plain_name(stem + seq!['.'] + own),
        !own.contains('.'),
    ensures
        stem.len() > 0 ==> extension_spec(stem + seq!['.'] + own) == Some(own),
        stem.len() == 0 ==> extension_spec(stem + seq!['.'] + own) is None,
{
    let name = stem + seq!['.'] + own;
    lemma_own_name(name);
    lemma_dot_before(stem, own);
    assert(name.skip(stem.len() as int + 1) =~= own);
}

/// A name without a dot has no extension.
pub proof fn no_extension_without_a_dot(name: Seq<char>)
    requires
        is_plain_name(name),
        !name.contains('.'),
    ensures
        extension_spec(name) is None,
{
    lemma_own_name(name);
    lemma_no_dot(name);
}

/// A plain name alone is a path of which it is the last component.
pub proof fn a_plain_name_is_its_own_file_name(name: Seq<char>)
    requires
        is_plain_name(name),
    ensures
        file_name_spec(name) == Some(name),
{
    lemma_own_name(name);
}

} // verus!
