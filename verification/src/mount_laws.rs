//! What a mount table says, told by its lines and words, and what paths on a mount
//! are called, told by their components.
use crate::mount::{
    chosen, is_bracket, kernel_path_spec, last_colon, last_longest, longest_point, mount_of_line,
    mounted_spec, mounts_over, point_of_line, same_mount, trim_brackets, vf_path_spec,
    walked_path_spec, ImplChoice, MountView,
};
use crate::path::{
    body_components, components, join_spec, lemma_components_slash_root, lemma_join_components,
    lemma_spans, lemma_tail_components, spans_spec, tail_from, Component, SLASH,
};
use crate::text::{
    field_spans_spec, fields_spec, find_char, is_white_spec, lemma_field_spans, lemma_find_char,
    lemma_line_spans, lemma_word_end, line_spans_spec, lines_spec, word_end,
};
use vstd::prelude::*;
use vstd::utf8::encode_utf8;

verus! {

// ---------------------------------------------------------------------------
// Lines and words
// ---------------------------------------------------------------------------

/// Pairs of places, each moved on by `n`.
pub open spec fn moved(spans: Seq<(int, int)>, n: int) -> Seq<(int, int)> {
    Seq::new(spans.len(), |k: int| (spans[k].0 + n, spans[k].1 + n))
}

proof fn lemma_word_end_moved(front: Seq<char>, t: Seq<char>, i: int)
    requires
        0 <= i <= t.len(),
    ensures
        word_end(front + t, front.len() + i) == front.len() + word_end(t, i),
    decreases t.len() - i,
{
    if i < t.len() {
        assert((front + t)[front.len() + i] == t[i]);
        if !is_white_spec(t[i]) {
            lemma_word_end_moved(front, t, i + 1);
        }
    }
}

proof fn lemma_fields_moved(front: Seq<char>, t: Seq<char>, i: int)
    requires
        0 <= i <= t.len(),
    ensures
        field_spans_spec(front + t, front.len() + i) == moved(
            field_spans_spec(t, i),
            front.len() as int,
        ),
    decreases t.len() - i,
{
    let n = front.len() as int;
    let all = front + t;
    if i < t.len() {
        assert(all[n + i] == t[i]);
        if is_white_spec(t[i]) {
            lemma_fields_moved(front, t, i + 1);
        } else {
            lemma_word_end(t, i);
            lemma_word_end_moved(front, t, i);
            let j = word_end(t, i);
            lemma_fields_moved(front, t, j);
            assert(moved(seq![(i, j)] + field_spans_spec(t, j), n) =~= seq![(n + i, n + j)] + moved(
                field_spans_spec(t, j),
                n,
            ));
        }
    } else {
        assert(moved(field_spans_spec(t, i), n) =~= Seq::empty());
    }
}

proof fn lemma_word_end_at(w: Seq<char>, rest: Seq<char>, i: int)
    requires
        0 <= i <= w.len(),
        forall|k: int| 0 <= k < w.len() ==> !is_white_spec(#[trigger] w[k]),
        rest.len() > 0 ==> is_white_spec(rest[0]),
    ensures
        word_end(w + rest, i) == w.len(),
    decreases w.len() - i,
{
    if i < w.len() {
        assert((w + rest)[i] == w[i]);
        lemma_word_end_at(w, rest, i + 1);
    } else if rest.len() > 0 {
        assert((w + rest)[i] == rest[0]);
    }
}

/// The words of a line: white space in front does not count, and what stands before
/// the first white space is the first word.
pub proof fn law_words_are_parted_by_white_space(w: Seq<char>, c: char, rest: Seq<char>)
    requires
        is_white_spec(c),
        forall|k: int| 0 <= k < w.len() ==> !is_white_spec(#[trigger] w[k]),
    ensures
        fields_spec(Seq::empty()) == Seq::<Seq<char>>::empty(),
        fields_spec(seq![c] + rest) == fields_spec(rest),
        w.len() > 0 ==> fields_spec(w) == seq![w],
        w.len() > 0 ==> fields_spec(w + (seq![c] + rest)) == seq![w] + fields_spec(rest),
{
    assert(fields_spec(Seq::empty()) =~= Seq::<Seq<char>>::empty());
    let line = seq![c] + rest;
    lemma_fields_moved(seq![c], rest, 0);
    lemma_field_spans(rest, 0);
    assert(field_spans_spec(line, 0) == moved(field_spans_spec(rest, 0), 1));
    assert(fields_spec(line) =~= fields_spec(rest)) by {
        assert forall|k: int| 0 <= k < fields_spec(rest).len() implies fields_spec(line)[k]
            == fields_spec(rest)[k] by {
            let s = field_spans_spec(rest, 0)[k];
            assert(line.subrange(s.0 + 1, s.1 + 1) =~= rest.subrange(s.0, s.1));
        }
    }
    if w.len() > 0 {
        let none = Seq::<char>::empty();
        lemma_word_end_at(w, none, 0);
        assert(w + none =~= w);
        assert(field_spans_spec(w, w.len() as int) =~= Seq::empty());
        assert(field_spans_spec(w, 0) =~= seq![(0int, w.len() as int)]);
        assert(w.subrange(0, w.len() as int) =~= w);
        assert(fields_spec(w) =~= seq![w]);
        let all = w + line;
        lemma_word_end_at(w, line, 0);
        assert(all[0] == w[0]);
        lemma_fields_moved(w, line, 0);
        let spans = field_spans_spec(all, 0);
        let n = w.len() as int;
        assert(spans =~= seq![(0int, n)] + moved(field_spans_spec(line, 0), n));
        lemma_field_spans(line, 0);
        assert(fields_spec(all) =~= seq![w] + fields_spec(line)) by {
            assert(all.subrange(0, n) =~= w);
            assert forall|k: int| 0 <= k < fields_spec(line).len() implies fields_spec(all)[k + 1]
                == fields_spec(line)[k] by {
                let s = field_spans_spec(line, 0)[k];
                assert(spans[k + 1] == (s.0 + n, s.1 + n));
                assert(all.subrange(s.0 + n, s.1 + n) =~= line.subrange(s.0, s.1));
            }
        }
    }
}

/// The blank is white space, and so are the characters that move the cursor, the
/// blanks of Unicode, and those that end its lines and paragraphs; nothing else is.
pub proof fn law_white_space(c: char)
    ensures
        is_white_spec(c) <==> {
            ||| c == ' '
            ||| 9 <= (c as u32) <= 13
            ||| c as u32 == 0x85 || c as u32 == 0xa0 || c as u32 == 0x1680
            ||| 0x2000 <= (c as u32) && (c as u32) < 0x200b
            ||| c as u32 == 0x2028 || c as u32 == 0x2029 || c as u32 == 0x202f
            ||| c as u32 == 0x205f || c as u32 == 0x3000
        },
{
}

proof fn lemma_find_moved(front: Seq<char>, t: Seq<char>, i: int)
    requires
        0 <= i <= t.len(),
    ensures
        find_char(front + t, '\n', front.len() + i) == front.len() + find_char(t, '\n', i),
    decreases t.len() - i,
{
    if i < t.len() {
        assert((front + t)[front.len() + i] == t[i]);
        if t[i] != '\n' {
            lemma_find_moved(front, t, i + 1);
        }
    }
}

proof fn lemma_lines_moved(front: Seq<char>, t: Seq<char>, i: int)
    requires
        0 <= i <= t.len(),
    ensures
        line_spans_spec(front + t, front.len() + i) == moved(
            line_spans_spec(t, i),
            front.len() as int,
        ),
    decreases t.len() - i,
{
    let n = front.len() as int;
    let all = front + t;
    if i < t.len() {
        lemma_find_char(t, '\n', i);
        lemma_find_moved(front, t, i);
        let j = find_char(t, '\n', i);
        if i < j {
            assert(all[n + j - 1] == t[j - 1]);
        }
        let e = if i < j < t.len() && t[j - 1] == '\r' {
            j - 1
        } else {
            j
        };
        assert(line_spans_spec(t, i) == seq![(i, e)] + line_spans_spec(t, j + 1));
        assert(line_spans_spec(all, n + i) == seq![(n + i, n + e)] + line_spans_spec(
            all,
            n + j + 1,
        ));
        if j < t.len() {
            lemma_lines_moved(front, t, j + 1);
        } else {
            assert(line_spans_spec(t, j + 1) =~= Seq::empty());
            assert(line_spans_spec(all, n + j + 1) =~= Seq::empty());
        }
        assert(moved(seq![(i, e)] + line_spans_spec(t, j + 1), n) =~= seq![(n + i, n + e)] + moved(
            line_spans_spec(t, j + 1),
            n,
        ));
    } else {
        assert(moved(line_spans_spec(t, i), n) =~= Seq::empty());
    }
}

proof fn lemma_find_at(l: Seq<char>, rest: Seq<char>, i: int)
    requires
        0 <= i <= l.len(),
        forall|k: int| 0 <= k < l.len() ==> #[trigger] l[k] != '\n',
        rest.len() > 0 ==> rest[0] == '\n',
    ensures
        find_char(l + rest, '\n', i) == l.len(),
    decreases l.len() - i,
{
    if i < l.len() {
        assert((l + rest)[i] == l[i]);
        lemma_find_at(l, rest, i + 1);
    } else if rest.len() > 0 {
        assert((l + rest)[i] == rest[0]);
    }
}

/// The lines of a text: what stands before the first `\n` is the first line, without
/// the `\r` that may end it; behind the last `\n` there is a line only where something
/// stands there.
pub proof fn law_lines_are_parted_by_newlines(l: Seq<char>, rest: Seq<char>)
    requires
        forall|k: int| 0 <= k < l.len() ==> #[trigger] l[k] != '\n',
    ensures
        lines_spec(Seq::empty()) == Seq::<Seq<char>>::empty(),
        l.len() > 0 ==> lines_spec(l) == seq![l],
        ({
            let line = if l.len() > 0 && l.last() == '\r' {
                l.drop_last()
            } else {
                l
            };
            lines_spec(l + (seq!['\n'] + rest)) == seq![line] + lines_spec(rest)
        }),
{
    assert(lines_spec(Seq::empty()) =~= Seq::<Seq<char>>::empty());
    if l.len() > 0 {
        let none = Seq::<char>::empty();
        lemma_find_at(l, none, 0);
        assert(l + none =~= l);
        assert(line_spans_spec(l, l.len() as int + 1) =~= Seq::empty());
        assert(line_spans_spec(l, 0) =~= seq![(0int, l.len() as int)]);
        assert(l.subrange(0, l.len() as int) =~= l);
        assert(lines_spec(l) =~= seq![l]);
    }
    let front = l.push('\n');
    let tail = seq!['\n'] + rest;
    let all = l + tail;
    assert(all =~= front + rest);
    lemma_find_at(l, tail, 0);
    lemma_lines_moved(front, rest, 0);
    lemma_line_spans(rest, 0);
    let n = front.len() as int;
    let e: int = if l.len() > 0 && l.last() == '\r' {
        l.len() - 1
    } else {
        l.len() as int
    };
    if l.len() > 0 {
        assert(all[l.len() - 1] == l.last());
    }
    let spans = line_spans_spec(all, 0);
    assert(spans =~= seq![(0int, e)] + moved(line_spans_spec(rest, 0), n));
    let line = if l.len() > 0 && l.last() == '\r' {
        l.drop_last()
    } else {
        l
    };
    assert(all.subrange(0, e) =~= line);
    assert(lines_spec(all) =~= seq![line] + lines_spec(rest)) by {
        assert forall|k: int| 0 <= k < lines_spec(rest).len() implies lines_spec(all)[k + 1]
            == lines_spec(rest)[k] by {
            let s = line_spans_spec(rest, 0)[k];
            assert(spans[k + 1] == (s.0 + n, s.1 + n));
            assert(all.subrange(s.0 + n, s.1 + n) =~= rest.subrange(s.0, s.1));
        }
    }
}

// ---------------------------------------------------------------------------
// The mount table
// ---------------------------------------------------------------------------

proof fn lemma_last_colon(s: Seq<char>)
    ensures
        -1 <= last_colon(s) < s.len(),
        last_colon(s) >= 0 ==> s[last_colon(s)] == ':',
        forall|k: int| last_colon(s) < k < s.len() ==> s[k] != ':',
    decreases s.len(),
{
    if s.len() > 0 && s.last() != ':' {
        let front = s.drop_last();
        lemma_last_colon(front);
        assert forall|k: int| last_colon(s) < k < s.len() implies s[k] != ':' by {
            if k < front.len() {
                assert(front[k] == s[k]);
            }
        }
    }
}

/// Whether a text is this host name between brackets of whatever number, which are
/// no part of it.
pub open spec fn is_host(text: Seq<char>, host: Seq<char>) -> bool {
    &&& exists|x: int| #[trigger] hosts_at(text, host, x)
    &&& host.len() > 0 ==> host[0] != '[' && host[0] != ']' && host.last() != '[' && host.last()
        != ']'
}

pub open spec fn hosts_at(text: Seq<char>, host: Seq<char>, x: int) -> bool {
    &&& 0 <= x
    &&& x + host.len() <= text.len()
    &&& text.subrange(x, x + host.len()) == host
    &&& forall|k: int|
        0 <= k < text.len() && !(x <= k < x + host.len()) ==> #[trigger] text[k] == '[' || text[k]
            == ']'
}

proof fn lemma_bracket_in_front(s: Seq<char>, host: Seq<char>, x: int)
    requires
        s.len() > 0,
        s[0] == '[' || s[0] == ']',
        hosts_at(s.drop_first(), host, x),
    ensures
        hosts_at(s, host, x + 1),
{
    let r = s.drop_first();
    let n = host.len() as int;
    assert(s.subrange(x + 1, x + 1 + n) =~= r.subrange(x, x + n));
    assert forall|k: int| 0 <= k < s.len() && !(x + 1 <= k < x + 1 + n) implies #[trigger] s[k]
        == '[' || s[k] == ']' by {
        if k > 0 {
            assert(r[k - 1] == s[k]);
        }
    }
}

proof fn lemma_bracket_behind(s: Seq<char>, host: Seq<char>, x: int)
    requires
        s.len() > 0,
        s.last() == '[' || s.last() == ']',
        hosts_at(s.drop_last(), host, x),
    ensures
        hosts_at(s, host, x),
{
    let r = s.drop_last();
    let n = host.len() as int;
    assert(s.subrange(x, x + n) =~= r.subrange(x, x + n));
    assert forall|k: int| 0 <= k < s.len() && !(x <= k < x + n) implies #[trigger] s[k] == '['
        || s[k] == ']' by {
        if k < r.len() {
            assert(r[k] == s[k]);
        }
    }
}

/// What is left of a host once brackets are taken off lies between brackets alone,
/// and neither begins nor ends with one.
pub proof fn law_brackets_are_taken_off(s: Seq<char>)
    ensures
        is_host(s, trim_brackets(s)),
    decreases s.len(),
{
    let t = trim_brackets(s);
    if s.len() > 0 && is_bracket(s[0]) {
        let r = s.drop_first();
        law_brackets_are_taken_off(r);
        assert(t == trim_brackets(r));
        let x = choose|x: int| #[trigger] hosts_at(r, t, x);
        lemma_bracket_in_front(s, t, x);
    } else if s.len() > 0 && is_bracket(s.last()) {
        let r = s.drop_last();
        law_brackets_are_taken_off(r);
        assert(t == trim_brackets(r));
        let x = choose|x: int| #[trigger] hosts_at(r, t, x);
        lemma_bracket_behind(s, t, x);
    } else {
        assert(t == s);
        assert(s.subrange(0, s.len() as int) =~= s);
        assert(hosts_at(s, s, 0));
    }
}

/// Whether a line of a mount table is that of an NFS mount on this directory, over
/// a path.
pub open spec fn is_nfs_line(path: Seq<u8>, line: Seq<char>) -> bool {
    let f = fields_spec(line);
    &&& f.len() >= 3
    &&& f[2] == seq!['n', 'f', 's'] || f[2] == seq!['n', 'f', 's', '4']
    &&& components(encode_utf8(f[1])).is_prefix_of(components(path))
}

/// A line tells of a mount over a path where its third word is `nfs` or `nfs4`, the
/// path lies on its second word, and its first word has a `:`. What stands before
/// the last `:` names the server, and what stands behind it is the export.
pub proof fn law_lines_tell_of_mounts(path: Seq<u8>, line: Seq<char>, host: Seq<char>, export: Seq<char>)
    ensures
        mount_of_line(path, line) is Some <==> is_nfs_line(path, line) && fields_spec(
            line,
        )[0].contains(':'),
        point_of_line(path, line) is Some <==> is_nfs_line(path, line),
        is_nfs_line(path, line) ==> point_of_line(path, line) == Some(
            encode_utf8(fields_spec(line)[1]),
        ),
        is_nfs_line(path, line) && fields_spec(line)[0] == host + (seq![':'] + export)
            && !export.contains(':') ==> (mount_of_line(path, line) matches Some(m) && m.export
            == encode_utf8(export) && m.point == encode_utf8(fields_spec(line)[1]) && is_host(
            host,
            m.server,
        )),
{
    reveal_strlit("nfs");
    reveal_strlit("nfs4");
    assert("nfs"@ =~= seq!['n', 'f', 's']);
    assert("nfs4"@ =~= seq!['n', 'f', 's', '4']);
    let f = fields_spec(line);
    if f.len() > 0 {
        lemma_last_colon(f[0]);
        let k = last_colon(f[0]);
        if f[0].contains(':') {
            let j = choose|j: int| 0 <= j < f[0].len() && f[0][j] == ':';
            assert(k >= j);
        }
        if f[0] == host + (seq![':'] + export) && !export.contains(':') {
            let h = host.len() as int;
            assert(f[0][h] == ':');
            if k > h {
                assert(export[k - h - 1] == f[0][k]);
            }
            assert(k == h);
            assert(f[0].take(k) =~= host);
            assert(f[0].skip(k + 1) =~= export);
            law_brackets_are_taken_off(host);
        }
    }
}

/// The mount of a path is told by the line with the longest mount point among those
/// that tell of one, and by the last of these where there are several; there is none
/// only where no line tells of one.
pub proof fn law_mount_is_in_the_table(path: Seq<u8>, lines: Seq<Seq<char>>)
    ensures
        match last_longest(mounts_over(path, lines)) {
            Some(m) => exists|k: int| #[trigger] is_mount_at(path, lines, m, k),
            None => forall|k: int|
                0 <= k < lines.len() ==> mount_of_line(path, #[trigger] lines[k]) is None,
        },
    decreases lines.len(),
{
    if lines.len() > 0 {
        let front = lines.drop_last();
        let n = lines.len() - 1;
        law_mount_is_in_the_table(path, front);
        let before = mounts_over(path, front);
        assert forall|k: int| 0 <= k < n implies lines[k] == front[k] by {}
        match mount_of_line(path, lines.last()) {
            Some(m) => {
                assert(mounts_over(path, lines).drop_last() =~= before);
                match last_longest(before) {
                    Some(b) => {
                        let k = choose|k: int| #[trigger] is_mount_at(path, front, b, k);
                        if b.point.len() > m.point.len() {
                            assert(is_mount_at(path, lines, b, k)) by {
                                lemma_mount_stays(path, lines, b, k);
                            }
                        } else {
                            assert(is_mount_at(path, lines, m, n)) by {
                                assert forall|j: int| 0 <= j < lines.len() implies (mount_of_line(
                                    path,
                                    #[trigger] lines[j],
                                ) matches Some(q) ==> q.point.len() <= m.point.len()) by {
                                    if j < n {
                                        assert(front[j] == lines[j]);
                                    }
                                }
                            }
                        }
                    },
                    None => {
                        assert(is_mount_at(path, lines, m, n)) by {
                            assert forall|j: int| 0 <= j < lines.len() implies (mount_of_line(
                                path,
                                #[trigger] lines[j],
                            ) matches Some(q) ==> q.point.len() <= m.point.len()) by {
                                if j < n {
                                    assert(front[j] == lines[j]);
                                }
                            }
                        }
                    },
                }
            },
            None => {
                match last_longest(before) {
                    Some(b) => {
                        let k = choose|k: int| #[trigger] is_mount_at(path, front, b, k);
                        lemma_mount_stays(path, lines, b, k);
                    },
                    None => {
                        assert forall|k: int| 0 <= k < lines.len() implies mount_of_line(
                            path,
                            #[trigger] lines[k],
                        ) is None by {
                            if k < n {
                                assert(front[k] == lines[k]);
                            }
                        }
                    },
                }
            },
        }
    }
}

proof fn lemma_mount_stays(path: Seq<u8>, lines: Seq<Seq<char>>, m: MountView, k: int)
    requires
        lines.len() > 0,
        is_mount_at(path, lines.drop_last(), m, k),
        mount_of_line(path, lines.last()) matches Some(q) ==> q.point.len() < m.point.len(),
    ensures
        is_mount_at(path, lines, m, k),
{
    let front = lines.drop_last();
    assert(lines[k] == front[k]);
    assert forall|j: int| 0 <= j < lines.len() implies (mount_of_line(
        path,
        #[trigger] lines[j],
    ) matches Some(q) ==> q.point.len() <= m.point.len() && (j > k ==> q.point.len()
        < m.point.len())) by {
        if j < front.len() {
            assert(front[j] == lines[j]);
        }
    }
}

/// Whether the line at `k` tells of this mount, no line of one with a longer mount
/// point, and no later line of one with a mount point as long.
pub open spec fn is_mount_at(path: Seq<u8>, lines: Seq<Seq<char>>, m: MountView, k: int) -> bool {
    &&& 0 <= k < lines.len()
    &&& mount_of_line(path, lines[k]) == Some(m)
    &&& forall|j: int|
        0 <= j < lines.len() ==> (mount_of_line(path, #[trigger] lines[j]) matches Some(q)
            ==> q.point.len() <= m.point.len() && (j > k ==> q.point.len() < m.point.len()))
}

/// Whether the line at `k` has this mount point, none a longer one, and no later line
/// one as long.
pub open spec fn is_point_at(path: Seq<u8>, lines: Seq<Seq<char>>, p: Seq<u8>, k: int) -> bool {
    &&& 0 <= k < lines.len()
    &&& point_of_line(path, lines[k]) == Some(p)
    &&& forall|j: int|
        0 <= j < lines.len() ==> (point_of_line(path, #[trigger] lines[j]) matches Some(q)
            ==> q.len() <= p.len() && (j > k ==> q.len() < p.len()))
}

/// The mount point of a path is that of the line with the longest one, and of the
/// last of these where there are several.
pub proof fn law_mountpoint_is_in_the_table(path: Seq<u8>, lines: Seq<Seq<char>>)
    ensures
        match longest_point(path, lines) {
            Some(p) => exists|k: int| #[trigger] is_point_at(path, lines, p, k),
            None => forall|k: int|
                0 <= k < lines.len() ==> point_of_line(path, #[trigger] lines[k]) is None,
        },
    decreases lines.len(),
{
    if lines.len() > 0 {
        let front = lines.drop_last();
        let n = lines.len() - 1;
        law_mountpoint_is_in_the_table(path, front);
        let last = point_of_line(path, lines.last());
        assert(lines[n] == lines.last());
        match longest_point(path, front) {
            Some(b) => {
                let k = choose|k: int| #[trigger] is_point_at(path, front, b, k);
                let p = longest_point(path, lines)->0;
                let at = if last is Some && b.len() <= (last->0).len() {
                    n
                } else {
                    k
                };
                assert(lines[k] == front[k]);
                assert forall|j: int| 0 <= j < lines.len() implies (point_of_line(
                    path,
                    #[trigger] lines[j],
                ) matches Some(q) ==> q.len() <= p.len() && (j > at ==> q.len() < p.len())) by {
                    if j < n {
                        assert(front[j] == lines[j]);
                    }
                }
                assert(is_point_at(path, lines, p, at));
            },
            None => {
                assert forall|j: int| 0 <= j < n implies point_of_line(path, #[trigger] lines[j])
                    is None by {
                    assert(front[j] == lines[j]);
                }
                if last is Some {
                    assert(is_point_at(path, lines, last->0, n));
                }
            },
        }
    }
}

/// Two mounts are the same where their servers are, and both directories name the
/// same place, however they are written.
pub proof fn law_same_mounts(a: MountView, b: MountView)
    ensures
        same_mount(a, b) <==> a.server == b.server && components(a.export) == components(b.export)
            && components(a.point) == components(b.point),
{
}

/// The backend is chosen by its name alone.
pub proof fn law_backends_are_chosen_by_name(value: Option<Seq<char>>)
    ensures
        chosen(value) == Some(ImplChoice::Dummy) <==> value == Some(seq!['d', 'u', 'm', 'm', 'y']),
        chosen(value) == Some(ImplChoice::Nfs) <==> value == Some(seq!['n', 'f', 's']),
{
    reveal_strlit("dummy");
    reveal_strlit("nfs");
    assert("dummy"@ =~= seq!['d', 'u', 'm', 'm', 'y']);
    assert("nfs"@ =~= seq!['n', 'f', 's']);
    assert(seq!['n', 'f', 's'].len() != seq!['d', 'u', 'm', 'm', 'y'].len());
}

// ---------------------------------------------------------------------------
// Names
// ---------------------------------------------------------------------------

proof fn lemma_root()
    ensures
        components(seq![SLASH]) == seq![Component::RootDir],
{
    let e = Seq::<u8>::empty();
    lemma_components_slash_root(e);
    assert(seq![SLASH] + e =~= seq![SLASH]);
    assert(body_components(e) =~= Seq::empty());
    assert(seq![Component::RootDir] + body_components(e) =~= seq![Component::RootDir]);
}

/// A path on a mount is called, from the root of the mount, by the components by
/// which it lies below the mount point.
pub proof fn law_vf_paths_start_at_the_root(mountpoint: Seq<u8>, path: Seq<u8>)
    requires
        mountpoint.len() > 0,
        components(mountpoint).is_prefix_of(components(path)),
    ensures
        components(vf_path_spec(mountpoint, path)) == seq![Component::RootDir] + components(
            path,
        ).skip(components(mountpoint).len() as int),
{
    let n = components(mountpoint).len() as int;
    lemma_spans(mountpoint);
    lemma_tail_components(path, n);
    lemma_root();
    lemma_join_components(seq![SLASH], tail_from(path, n));
}

/// A path that is named from the root of a mount lies below the mount point by the
/// same components.
pub proof fn law_kernel_paths_start_at_the_mount(mountpoint: Seq<u8>, vpath: Seq<u8>)
    requires
        mountpoint.len() > 0,
        components(vpath).len() > 0,
        components(vpath)[0] == Component::RootDir,
    ensures
        components(kernel_path_spec(mountpoint, vpath)) == components(mountpoint) + components(
            vpath,
        ).skip(1),
{
    lemma_root();
    assert(components(vpath).subrange(0, 1) =~= seq![Component::RootDir]);
    lemma_tail_components(vpath, 1);
    lemma_join_components(mountpoint, tail_from(vpath, 1));
}

/// An absolute path outside the mount keeps its name, and a relative one is named from
/// the root of the mount, or from the mount point on the way back; a walked directory
/// that is not below the root of the walk has its place under the mount point.
pub proof fn law_what_lies_outside_keeps_its_name(
    mountpoint: Seq<u8>,
    path: Seq<u8>,
    root: Seq<u8>,
    canonical: Seq<u8>,
    vpath: Seq<u8>,
)
    ensures
        path.len() > 0 && path[0] == 47 && !components(mountpoint).is_prefix_of(components(path))
            ==> vf_path_spec(mountpoint, path) == path,
        !(path.len() > 0 && path[0] == 47) && !components(mountpoint).is_prefix_of(components(path))
            ==> vf_path_spec(mountpoint, path) == seq![47u8] + path,
        !(vpath.len() > 0 && vpath[0] == 47) ==> kernel_path_spec(mountpoint, vpath) == join_spec(
            mountpoint,
            vpath,
        ),
        !components(vf_path_spec(mountpoint, canonical)).is_prefix_of(components(vpath))
            ==> walked_path_spec(mountpoint, root, canonical, vpath) == kernel_path_spec(
            mountpoint,
            vpath,
        ),
{
    lemma_root();
    if !(vpath.len() > 0 && vpath[0] == 47) {
        lemma_spans(vpath);
        if vpath.len() > 0 {
            let s = spans_spec(vpath)[0];
            assert(vpath.subrange(s.0, s.1)[0] == vpath[0]);
            assert(!(components(vpath)[0] is RootDir));
        }
        let root = seq![Component::RootDir];
        assert(!root.is_prefix_of(components(vpath))) by {
            if root.is_prefix_of(components(vpath)) {
                assert(components(vpath)[0] == root[0]);
            }
        }
    }
    assert(join_spec(seq![47u8], path) == path || join_spec(seq![47u8], path) == seq![47u8] + path);
}

/// A path has a name on the server exactly where it lies on the mount.
pub proof fn law_only_paths_on_the_mount_have_names(absolute: Seq<u8>, mount: MountView)
    ensures
        mounted_spec(absolute, mount) is Some <==> components(mount.point).is_prefix_of(
            components(absolute),
        ),
{
}

} // verus!
