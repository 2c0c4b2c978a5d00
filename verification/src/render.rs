//! Rendering the document tree to Markdown text.
//!
//! Everything here is pure: images are rendered as references into a
//! resource directory, and the file copies they call for are returned as
//! instructions for the caller to carry out.

use vstd::prelude::*;

use crate::block::{
    spec_block_view, spec_blocks_view, spec_items_view, spec_list_one_view, spec_slices_view,
    Block, HeadLevel, ListOne, ListType, SpecBlock, SpecListOne, SpecTextSlice, TextSlice,
};
use crate::image::push_char;

verus! {

/// Relies on str::chars: the characters of the string, in order.
#[verifier::external_body]
fn str_chars(s: &str) -> (r: Vec<char>)
    ensures
        r@ == s@,
{
    s.chars().collect()
}

/// Append every character of `v` to `s`.
fn append_chars(s: &mut String, v: &Vec<char>)
    ensures
        final(s)@ == old(s)@ + v@,
{
    let mut i: usize = 0;
    proof {
        assert(old(s)@ + v@.take(0) =~= old(s)@);
    }
    while i < v.len()
        invariant
            0 <= i <= v@.len(),
            s@ == old(s)@ + v@.take(i as int),
        decreases v@.len() - i,
    {
        push_char(s, v[i]);
        proof {
            assert(old(s)@ + v@.take(i + 1) =~= (old(s)@ + v@.take(i as int)).push(v@[i as int]));
        }
        i = i + 1;
    }
    proof {
        assert(v@.take(v@.len() as int) =~= v@);
    }
}

// ---------------------------------------------------------------------------
// Text slices
// ---------------------------------------------------------------------------
/// The Markdown rendering of one text slice: inline code backticks first,
/// then bold stars, then the link wrapper.
pub open spec fn spec_slice_md(t: SpecTextSlice) -> Seq<char> {
    let base = if t.is_code {
        seq!['`'] + t.text + seq!['`']
    } else {
        t.text
    };
    let bolded = if t.is_bold {
        seq!['*', '*'] + base + seq!['*', '*']
    } else {
        base
    };
    match t.link {
        Some(u) => seq!['['] + bolded + seq![']', '('] + u + seq![')'],
        None => bolded,
    }
}

/// The Markdown rendering of a run of text slices, in order.
pub open spec fn spec_slices_md(ts: Seq<SpecTextSlice>) -> Seq<char>
    decreases ts.len(),
{
    if ts.len() == 0 {
        Seq::empty()
    } else {
        spec_slices_md(ts.drop_last()) + spec_slice_md(ts.last())
    }
}

/// Render a run of text slices to Markdown.
pub fn format_text_slices_to_markdown(slices: &Vec<TextSlice>) -> (r: String)
    ensures
        r@ == spec_slices_md(spec_slices_view(slices@)),
{
    let ghost ts = spec_slices_view(slices@);
    let mut out = String::new();
    let mut i: usize = 0;
    proof {
        assert(ts.len() == slices@.len());
        assert(out@ =~= spec_slices_md(ts.take(0)));
    }
    while i < slices.len()
        invariant
            ts == spec_slices_view(slices@),
            ts.len() == slices@.len(),
            0 <= i <= ts.len(),
            out@ == spec_slices_md(ts.take(i as int)),
        decreases ts.len() - i,
    {
        let t = &slices[i];
        let mut cur = t.text.clone();
        if t.is_code {
            let mut tmp = String::new();
            tmp.append("`");
            tmp.append(cur.as_str());
            tmp.append("`");
            proof {
                reveal_strlit("`");
                assert("`"@ =~= seq!['`']);
            }
            cur = tmp;
        }
        if t.is_bold {
            let mut tmp = String::new();
            tmp.append("**");
            tmp.append(cur.as_str());
            tmp.append("**");
            proof {
                reveal_strlit("**");
                assert("**"@ =~= seq!['*', '*']);
            }
            cur = tmp;
        }
        if let Some(u) = &t.link {
            let mut tmp = String::new();
            tmp.append("[");
            tmp.append(cur.as_str());
            tmp.append("](");
            tmp.append(u.as_str());
            tmp.append(")");
            proof {
                reveal_strlit("[");
                reveal_strlit("](");
                reveal_strlit(")");
                assert("["@ =~= seq!['[']);
                assert("]("@ =~= seq![']', '(']);
                assert(")"@ =~= seq![')']);
            }
            cur = tmp;
        }
        proof {
            assert(ts[i as int] == slices@[i as int]@);
            assert(cur@ == spec_slice_md(ts[i as int]));
            assert(ts.take(i + 1).drop_last() =~= ts.take(i as int));
            assert(ts.take(i + 1).last() == ts[i as int]);
        }
        out.append(cur.as_str());
        i = i + 1;
    }
    proof {
        assert(ts.take(ts.len() as int) =~= ts);
    }
    out
}

// ---------------------------------------------------------------------------
// Heading levels
// ---------------------------------------------------------------------------
/// The numeric depth of a heading level.
pub open spec fn spec_head_level(level: HeadLevel) -> int {
    match level {
        HeadLevel::H1 => 1,
        HeadLevel::H2 => 2,
        HeadLevel::H3 => 3,
        HeadLevel::H4 => 4,
        HeadLevel::H5 => 5,
        HeadLevel::H6 => 6,
        HeadLevel::H7 => 7,
        HeadLevel::H8 => 8,
        HeadLevel::H9 => 9,
        HeadLevel::H10 => 10,
    }
}

/// The numeric depth of a heading level.
pub fn head_level_to_usize(level: &HeadLevel) -> (r: usize)
    ensures
        r == spec_head_level(*level),
{
    match level {
        HeadLevel::H1 => 1,
        HeadLevel::H2 => 2,
        HeadLevel::H3 => 3,
        HeadLevel::H4 => 4,
        HeadLevel::H5 => 5,
        HeadLevel::H6 => 6,
        HeadLevel::H7 => 7,
        HeadLevel::H8 => 8,
        HeadLevel::H9 => 9,
        HeadLevel::H10 => 10,
    }
}

// ---------------------------------------------------------------------------
// Decimal numbers
// ---------------------------------------------------------------------------
/// The decimal digit character for a value below ten.
pub open spec fn spec_dec_digit(d: int) -> char {
    if d == 0 {
        '0'
    } else if d == 1 {
        '1'
    } else if d == 2 {
        '2'
    } else if d == 3 {
        '3'
    } else if d == 4 {
        '4'
    } else if d == 5 {
        '5'
    } else if d == 6 {
        '6'
    } else if d == 7 {
        '7'
    } else if d == 8 {
        '8'
    } else {
        '9'
    }
}

/// The decimal rendering of a nonnegative number, most significant digit
/// first, with no leading zeros (zero itself is one digit).
pub open spec fn spec_dec(n: int) -> Seq<char>
    decreases n,
{
    if n < 0 {
        Seq::empty()
    } else if n < 10 {
        seq![spec_dec_digit(n)]
    } else {
        spec_dec(n / 10).push(spec_dec_digit(n % 10))
    }
}

fn dec_digit(d: u64) -> (r: char)
    requires
        d < 10,
    ensures
        r == spec_dec_digit(d as int),
{
    if d == 0 {
        '0'
    } else if d == 1 {
        '1'
    } else if d == 2 {
        '2'
    } else if d == 3 {
        '3'
    } else if d == 4 {
        '4'
    } else if d == 5 {
        '5'
    } else if d == 6 {
        '6'
    } else if d == 7 {
        '7'
    } else if d == 8 {
        '8'
    } else {
        '9'
    }
}

/// The decimal rendering of a number.
pub fn u64_to_dec(n: u64) -> (r: Vec<char>)
    ensures
        r@ == spec_dec(n as int),
{
    let mut low: Vec<char> = Vec::new();
    let ghost mut tail: Seq<char> = Seq::empty();
    let mut x = n;
    while x >= 10
        invariant
            tail.len() == low@.len(),
            forall|k: int| 0 <= k < tail.len() ==> tail[k] == low@[low@.len() - 1 - k],
            spec_dec(n as int) == spec_dec(x as int) + tail,
        decreases x,
    {
        let d = x % 10;
        proof {
            assert(spec_dec(x as int) == spec_dec(x as int / 10).push(spec_dec_digit(
                x as int % 10,
            )));
            assert(spec_dec(x as int / 10).push(spec_dec_digit(x as int % 10)) + tail
                =~= spec_dec(x as int / 10) + (seq![spec_dec_digit(x as int % 10)] + tail));
            assert((x / 10) as int == x as int / 10);
            assert(d as int == x as int % 10);
        }
        low.push(dec_digit(d));
        proof {
            tail = seq![spec_dec_digit(d as int)] + tail;
        }
        x = x / 10;
    }
    let mut r: Vec<char> = Vec::new();
    r.push(dec_digit(x));
    proof {
        assert(spec_dec(x as int) == seq![spec_dec_digit(x as int)]);
        assert(r@ =~= spec_dec(x as int));
    }
    let mut j: usize = low.len();
    while j > 0
        invariant
            0 <= j <= low@.len(),
            tail.len() == low@.len(),
            forall|k: int| 0 <= k < tail.len() ==> tail[k] == low@[low@.len() - 1 - k],
            spec_dec(n as int) == spec_dec(x as int) + tail,
            r@ == spec_dec(x as int) + tail.take(low@.len() - j),
        decreases j,
    {
        r.push(low[j - 1]);
        proof {
            assert(tail[low@.len() - j] == low@[(j - 1) as int]);
            assert(spec_dec(x as int) + tail.take(low@.len() - j + 1) =~= (spec_dec(x as int)
                + tail.take(low@.len() - j)).push(tail[low@.len() - j]));
        }
        j = j - 1;
    }
    proof {
        assert(tail.take(low@.len() as int) =~= tail);
    }
    r
}

// ---------------------------------------------------------------------------
// The Markdown rendering, as a mathematical function of the tree
// ---------------------------------------------------------------------------
/// One file copy the rendering calls for: the cached source file, and the
/// name it takes inside the resource directory.
pub struct ImageCopy {
    pub source: String,
    pub dest_name: String,
}

/// Mathematical model of an [`ImageCopy`].
pub struct SpecImageCopy {
    pub source: Seq<char>,
    pub dest_name: Seq<char>,
}

impl View for ImageCopy {
    type V = SpecImageCopy;

    open spec fn view(&self) -> SpecImageCopy {
        SpecImageCopy { source: self.source@, dest_name: self.dest_name@ }
    }
}

/// The copy sequence a vector of copies stands for.
pub open spec fn spec_copies_view(v: Seq<ImageCopy>) -> Seq<SpecImageCopy> {
    v.map_values(|c: ImageCopy| c@)
}

/// Four spaces per nesting level.
pub open spec fn spec_indent(ind: int) -> Seq<char>
    decreases ind,
{
    if ind <= 0 {
        Seq::empty()
    } else {
        spec_indent(ind - 1) + seq![' ', ' ', ' ', ' ']
    }
}

/// A run of heading marks.
pub open spec fn spec_hashes(n: int) -> Seq<char>
    decreases n,
{
    if n <= 0 {
        Seq::empty()
    } else {
        spec_hashes(n - 1).push('#')
    }
}

/// The image counter after one more image, held at its ceiling.
pub open spec fn bump_counter(c: int) -> int {
    if c < u64::MAX {
        c + 1
    } else {
        c
    }
}

/// The nesting level one deeper, held at its ceiling.
pub open spec fn next_indent(i: int) -> int {
    if i < usize::MAX {
        i + 1
    } else {
        i
    }
}

/// The characters of a path after its last separator: the file's name,
/// empty for a path that ends in a separator.
pub open spec fn spec_file_name(p: Seq<char>) -> Seq<char>
    decreases p.len(),
{
    if p.len() == 0 {
        Seq::empty()
    } else if p.last() == '/' {
        Seq::empty()
    } else {
        spec_file_name(p.drop_last()).push(p.last())
    }
}

/// The rendering of one block: its Markdown text, the image copies it
/// calls for, and the image counter afterwards.
pub open spec fn md_block(b: SpecBlock, rsc: Seq<char>, cnt: int, ind: int) -> (
    Seq<char>,
    Seq<SpecImageCopy>,
    int,
)
    decreases b, 0int,
{
    match b {
        SpecBlock::Text(ts) => {
            let md = spec_slices_md(ts);
            (
                if md.len() == 0 {
                    Seq::empty()
                } else {
                    spec_indent(ind) + md + seq!['\n', '\n']
                },
                Seq::empty(),
                cnt,
            )
        },
        SpecBlock::Title { text, head_level } => {
            let lv = spec_head_level(head_level);
            let capped = if lv < 6 {
                lv
            } else {
                6
            };
            (
                spec_indent(ind) + spec_hashes(capped) + seq![' '] + text + seq!['\n', '\n'],
                Seq::empty(),
                cnt,
            )
        },
        SpecBlock::Image { cached_path } => {
            let c2 = bump_counter(cnt);
            let name = spec_file_name(cached_path);
            let dest = spec_dec(c2) + seq!['_'] + name;
            (
                spec_indent(ind) + seq!['!', '['] + name + seq![']', '('] + rsc + seq!['/'] + dest
                    + seq![')', '\n', '\n'],
                seq![SpecImageCopy { source: cached_path, dest_name: dest }],
                c2,
            )
        },
        SpecBlock::Code { language, code } => {
            let fence_open = if language.len() == 0 {
                seq!['`', '`', '`', '\n']
            } else {
                seq!['`', '`', '`'] + language + seq!['\n']
            };
            (
                spec_indent(ind) + fence_open + code + seq!['\n', '`', '`', '`', '\n', '\n'],
                Seq::empty(),
                cnt,
            )
        },
        SpecBlock::List { list_type, items } => {
            let folded = md_items(items, list_type, rsc, cnt, ind, items.len() as int);
            (
                folded.0 + (if ind == 0 && folded.0.len() > 0 {
                    seq!['\n']
                } else {
                    Seq::empty()
                }),
                folded.1,
                folded.2,
            )
        },
    }
}

/// The rendering of the first `i` items of a list, in order.
pub open spec fn md_items(
    items: Seq<SpecListOne>,
    k: ListType,
    rsc: Seq<char>,
    cnt: int,
    ind: int,
    i: int,
) -> (Seq<char>, Seq<SpecImageCopy>, int)
    decreases items, i,
{
    if i <= 0 || i > items.len() {
        (Seq::empty(), Seq::empty(), cnt)
    } else {
        let pre = md_items(items, k, rsc, cnt, ind, i - 1);
        let one = md_item(items[i - 1], i - 1, k, rsc, pre.2, ind);
        (pre.0 + one.0, pre.1 + one.1, one.2)
    }
}

/// The rendering of one list item at position `pos`: its marker line, and
/// its following content one level deeper.
pub open spec fn md_item(
    l: SpecListOne,
    pos: int,
    k: ListType,
    rsc: Seq<char>,
    cnt: int,
    ind: int,
) -> (Seq<char>, Seq<SpecImageCopy>, int)
    decreases l, 0int,
{
    let headline = spec_slices_md(l.headline);
    let line = match k {
        ListType::Ordered => spec_indent(ind) + spec_dec(pos + 1) + seq!['.', ' '] + headline
            + seq!['\n'],
        ListType::Unordered => spec_indent(ind) + seq!['-', ' '] + headline + seq!['\n'],
        ListType::Task => spec_indent(ind) + seq!['-', ' '] + (if l.done == Some(true) {
            seq!['[', 'x', ']']
        } else {
            seq!['[', ' ', ']']
        }) + seq![' '] + headline + seq!['\n'],
    };
    let sub = md_blocks(l.following, rsc, cnt, next_indent(ind), l.following.len() as int);
    (line + sub.0, sub.1, sub.2)
}

/// The rendering of the first `i` blocks of a sequence, in order.
pub open spec fn md_blocks(
    bs: Seq<SpecBlock>,
    rsc: Seq<char>,
    cnt: int,
    ind: int,
    i: int,
) -> (Seq<char>, Seq<SpecImageCopy>, int)
    decreases bs, i,
{
    if i <= 0 || i > bs.len() {
        (Seq::empty(), Seq::empty(), cnt)
    } else {
        let pre = md_blocks(bs, rsc, cnt, ind, i - 1);
        let one = md_block(bs[i - 1], rsc, pre.2, ind);
        (pre.0 + one.0, pre.1 + one.1, one.2)
    }
}

// ---------------------------------------------------------------------------
// Rendering, executable
// ---------------------------------------------------------------------------
/// Four spaces of indentation per nesting level.
fn make_indent(ind: usize) -> (r: String)
    ensures
        r@ == spec_indent(ind as int),
{
    let mut r = String::new();
    let mut i: usize = 0;
    while i < ind
        invariant
            0 <= i <= ind,
            r@ == spec_indent(i as int),
        decreases ind - i,
    {
        r.append("    ");
        proof {
            reveal_strlit("    ");
            assert("    "@ =~= seq![' ', ' ', ' ', ' ']);
        }
        i = i + 1;
    }
    r
}

/// The characters of a path after its last separator.
fn file_name_chars(p: &Vec<char>) -> (r: Vec<char>)
    ensures
        r@ == spec_file_name(p@),
{
    let mut cut: usize = p.len();
    while cut > 0 && p[cut - 1] != '/'
        invariant
            0 <= cut <= p@.len(),
            forall|m: int| cut <= m < p@.len() ==> p@[m] != '/',
        decreases cut,
    {
        cut = cut - 1;
    }
    let mut r: Vec<char> = Vec::new();
    let mut i: usize = cut;
    while i < p.len()
        invariant
            cut <= i <= p@.len(),
            r@ == p@.subrange(cut as int, i as int),
        decreases p@.len() - i,
    {
        r.push(p[i]);
        proof {
            assert(p@.subrange(cut as int, i + 1) =~= p@.subrange(cut as int, i as int).push(
                p@[i as int],
            ));
        }
        i = i + 1;
    }
    proof {
        lemma_file_name_at(p@, cut as int);
        assert(p@.subrange(cut as int, p@.len() as int) =~= p@.skip(cut as int));
    }
    r
}

/// Past the last separator, the file name is the remaining suffix.
proof fn lemma_file_name_at(p: Seq<char>, cut: int)
    requires
        0 <= cut <= p.len(),
        forall|m: int| cut <= m < p.len() ==> p[m] != '/',
        cut > 0 ==> p[cut - 1] == '/',
    ensures
        spec_file_name(p) == p.skip(cut),
    decreases p.len(),
{
    if p.len() == 0 {
        assert(spec_file_name(p) =~= p.skip(cut));
    } else if p.last() == '/' {
        assert(cut == p.len());
        assert(spec_file_name(p) =~= p.skip(cut));
    } else {
        assert(cut < p.len());
        lemma_file_name_at(p.drop_last(), cut);
        assert(p.drop_last().skip(cut).push(p.last()) =~= p.skip(cut));
    }
}

/// Turn a character vector into a string.
fn chars_to_string(v: &Vec<char>) -> (r: String)
    ensures
        r@ == v@,
{
    let mut r = String::new();
    append_chars(&mut r, v);
    r
}

/// Render one block to Markdown at the given nesting level. Image blocks
/// advance the counter and call for one file copy each; the instructions
/// are appended to `copies` for the caller to carry out.
pub fn process_block_to_markdown(
    block: &Block,
    rsc_dir_name: &str,
    image_counter: &mut u64,
    copies: &mut Vec<ImageCopy>,
    indent_level: usize,
) -> (r: String)
    ensures
        ({
            let folded = md_block(
                spec_block_view(*block),
                rsc_dir_name@,
                *old(image_counter) as int,
                indent_level as int,
            );
            &&& r@ == folded.0
            &&& spec_copies_view(final(copies)@) == spec_copies_view(old(copies)@) + folded.1
            &&& *final(image_counter) as int == folded.2
        }),
    decreases *block,
{
    match block {
        Block::Text(slices) => {
            let md = format_text_slices_to_markdown(slices);
            if md.as_str().is_empty() {
                String::new()
            } else {
                let mut out = make_indent(indent_level);
                out.append(md.as_str());
                out.append("\n\n");
                proof {
                    reveal_strlit("\n\n");
                    assert("\n\n"@ =~= seq!['\n', '\n']);
                }
                out
            }
        },
        Block::Title { text, head_level } => {
            let lv = head_level_to_usize(head_level);
            let capped = if lv < 6 {
                lv
            } else {
                6
            };
            let mut out = make_indent(indent_level);
            let mut i: usize = 0;
            let ghost base = out@;
            while i < capped
                invariant
                    0 <= i <= capped,
                    out@ == base + spec_hashes(i as int),
                decreases capped - i,
            {
                push_char(&mut out, '#');
                i = i + 1;
            }
            out.append(" ");
            out.append(text.as_str());
            out.append("\n\n");
            proof {
                reveal_strlit(" ");
                reveal_strlit("\n\n");
                assert(" "@ =~= seq![' ']);
                assert("\n\n"@ =~= seq!['\n', '\n']);
                assert(base + spec_hashes(capped as int) + seq![' '] + text@ + seq!['\n', '\n']
                    =~= base + (spec_hashes(capped as int) + (seq![' '] + (text@ + seq![
                    '\n',
                    '\n',
                ]))));
            }
            out
        },
        Block::Image { cached_path } => {
            let c2 = if *image_counter < u64::MAX {
                *image_counter + 1
            } else {
                *image_counter
            };
            *image_counter = c2;
            let path_chars = str_chars(cached_path.as_str());
            let name = file_name_chars(&path_chars);
            let num = u64_to_dec(c2);
            let mut dest: Vec<char> = num;
            dest.push('_');
            let mut name2 = name;
            dest.append(&mut name2);
            let ghost dest_spec = spec_dec(c2 as int) + seq!['_'] + spec_file_name(cached_path@);
            proof {
                assert(dest@ =~= dest_spec);
            }
            let mut out = make_indent(indent_level);
            out.append("![");
            let name3 = file_name_chars(&path_chars);
            append_chars(&mut out, &name3);
            out.append("](");
            out.append(rsc_dir_name);
            out.append("/");
            append_chars(&mut out, &dest);
            out.append(")\n\n");
            copies.push(ImageCopy { source: cached_path.clone(), dest_name: chars_to_string(&dest) });
            proof {
                reveal_strlit("![");
                reveal_strlit("](");
                reveal_strlit("/");
                reveal_strlit(")\n\n");
                assert("!["@ =~= seq!['!', '[']);
                assert("]("@ =~= seq![']', '(']);
                assert("/"@ =~= seq!['/']);
                assert(")\n\n"@ =~= seq![')', '\n', '\n']);
                assert(out@ =~= spec_indent(indent_level as int) + seq!['!', '['] + spec_file_name(
                    cached_path@,
                ) + seq![']', '('] + rsc_dir_name@ + seq!['/'] + dest_spec + seq![')', '\n', '\n']);
                assert(spec_copies_view(copies@) =~= spec_copies_view(old(copies)@) + seq![
                    SpecImageCopy { source: cached_path@, dest_name: dest_spec },
                ]);
            }
            out
        },
        Block::Code { language, code } => {
            let mut out = make_indent(indent_level);
            out.append("```");
            if !language.as_str().is_empty() {
                out.append(language.as_str());
            }
            out.append("\n");
            out.append(code.as_str());
            out.append("\n```\n\n");
            proof {
                reveal_strlit("```");
                reveal_strlit("\n");
                reveal_strlit("\n```\n\n");
                assert("```"@ =~= seq!['`', '`', '`']);
                assert("\n"@ =~= seq!['\n']);
                assert("\n```\n\n"@ =~= seq!['\n', '`', '`', '`', '\n', '\n']);
                if language@.len() == 0 {
                    assert(spec_indent(indent_level as int) + seq!['`', '`', '`'] + language@
                        + seq!['\n'] =~= spec_indent(indent_level as int) + seq![
                        '`',
                        '`',
                        '`',
                        '\n',
                    ]);
                }
            }
            out
        },
        Block::List { list_type, items } => {
            let mut md = format_list_items_to_markdown(
                items,
                list_type,
                indent_level,
                rsc_dir_name,
                image_counter,
                copies,
            );
            if indent_level == 0 && !md.as_str().is_empty() {
                md.append("\n");
                proof {
                    reveal_strlit("\n");
                    assert("\n"@ =~= seq!['\n']);
                }
            }
            md
        },
    }
}

/// Render the items of one list, in order, at the given nesting level.
pub fn format_list_items_to_markdown(
    items: &Vec<ListOne>,
    list_type: &ListType,
    indent_level: usize,
    rsc_dir_name: &str,
    image_counter: &mut u64,
    copies: &mut Vec<ImageCopy>,
) -> (r: String)
    ensures
        ({
            let folded = md_items(
                spec_items_view(items@),
                *list_type,
                rsc_dir_name@,
                *old(image_counter) as int,
                indent_level as int,
                items@.len() as int,
            );
            &&& r@ == folded.0
            &&& spec_copies_view(final(copies)@) == spec_copies_view(old(copies)@) + folded.1
            &&& *final(image_counter) as int == folded.2
        }),
    decreases *items,
{
    let ghost its = spec_items_view(items@);
    let mut out = String::new();
    let mut i: usize = 0;
    while i < items.len()
        invariant
            its == spec_items_view(items@),
            its.len() == items@.len(),
            0 <= i <= its.len(),
            ({
                let folded = md_items(
                    its,
                    *list_type,
                    rsc_dir_name@,
                    *old(image_counter) as int,
                    indent_level as int,
                    i as int,
                );
                &&& out@ == folded.0
                &&& spec_copies_view(copies@) == spec_copies_view(old(copies)@) + folded.1
                &&& *image_counter as int == folded.2
            }),
        decreases its.len() - i,
    {
        let one = format_one_item(
            &items[i],
            i,
            list_type,
            indent_level,
            rsc_dir_name,
            image_counter,
            copies,
        );
        out.append(one.as_str());
        proof {
            assert(its[i as int] == spec_list_one_view(items@[i as int]));
        }
        i = i + 1;
        proof {
            let pre = md_items(
                its,
                *list_type,
                rsc_dir_name@,
                *old(image_counter) as int,
                indent_level as int,
                i - 1,
            );
            let cur = md_items(
                its,
                *list_type,
                rsc_dir_name@,
                *old(image_counter) as int,
                indent_level as int,
                i as int,
            );
            assert(cur.1 == pre.1 + md_item(
                its[i - 1],
                i - 1,
                *list_type,
                rsc_dir_name@,
                pre.2,
                indent_level as int,
            ).1);
            assert(spec_copies_view(copies@) =~= spec_copies_view(old(copies)@) + cur.1);
        }
    }
    out
}

/// Render one list item at its position, marker line first, then its
/// following content one level deeper.
fn format_one_item(
    item: &ListOne,
    pos: usize,
    list_type: &ListType,
    indent_level: usize,
    rsc_dir_name: &str,
    image_counter: &mut u64,
    copies: &mut Vec<ImageCopy>,
) -> (r: String)
    requires
        pos < usize::MAX,
    ensures
        ({
            let folded = md_item(
                spec_list_one_view(*item),
                pos as int,
                *list_type,
                rsc_dir_name@,
                *old(image_counter) as int,
                indent_level as int,
            );
            &&& r@ == folded.0
            &&& spec_copies_view(final(copies)@) == spec_copies_view(old(copies)@) + folded.1
            &&& *final(image_counter) as int == folded.2
        }),
    decreases *item,
{
    let headline = format_text_slices_to_markdown(&item.headline);
    let mut line = make_indent(indent_level);
    match list_type {
        ListType::Ordered => {
            let num = u64_to_dec(pos as u64 + 1);
            append_chars(&mut line, &num);
            line.append(". ");
            line.append(headline.as_str());
            line.append("\n");
            proof {
                reveal_strlit(". ");
                reveal_strlit("\n");
                assert(". "@ =~= seq!['.', ' ']);
                assert("\n"@ =~= seq!['\n']);
            }
        },
        ListType::Unordered => {
            line.append("- ");
            line.append(headline.as_str());
            line.append("\n");
            proof {
                reveal_strlit("- ");
                reveal_strlit("\n");
                assert("- "@ =~= seq!['-', ' ']);
                assert("\n"@ =~= seq!['\n']);
            }
        },
        ListType::Task => {
            line.append("- ");
            let done = match &item.done {
                Some(d) => *d,
                None => false,
            };
            if done {
                line.append("[x]");
            } else {
                line.append("[ ]");
            }
            line.append(" ");
            line.append(headline.as_str());
            line.append("\n");
            proof {
                reveal_strlit("- ");
                reveal_strlit("[x]");
                reveal_strlit("[ ]");
                reveal_strlit(" ");
                reveal_strlit("\n");
                assert("- "@ =~= seq!['-', ' ']);
                assert("[x]"@ =~= seq!['[', 'x', ']']);
                assert("[ ]"@ =~= seq!['[', ' ', ']']);
                assert(" "@ =~= seq![' ']);
                assert("\n"@ =~= seq!['\n']);
            }
        },
    }
    let deeper = if indent_level < usize::MAX {
        indent_level + 1
    } else {
        indent_level
    };
    let sub = format_following(&item.following, rsc_dir_name, image_counter, copies, deeper);
    line.append(sub.as_str());
    line
}

/// Render a sequence of blocks, in order, at the given nesting level.
pub fn format_following(
    blocks: &Vec<Block>,
    rsc_dir_name: &str,
    image_counter: &mut u64,
    copies: &mut Vec<ImageCopy>,
    indent_level: usize,
) -> (r: String)
    ensures
        ({
            let folded = md_blocks(
                spec_blocks_view(blocks@),
                rsc_dir_name@,
                *old(image_counter) as int,
                indent_level as int,
                blocks@.len() as int,
            );
            &&& r@ == folded.0
            &&& spec_copies_view(final(copies)@) == spec_copies_view(old(copies)@) + folded.1
            &&& *final(image_counter) as int == folded.2
        }),
    decreases *blocks,
{
    let ghost bs = spec_blocks_view(blocks@);
    let mut out = String::new();
    let mut i: usize = 0;
    while i < blocks.len()
        invariant
            bs == spec_blocks_view(blocks@),
            bs.len() == blocks@.len(),
            0 <= i <= bs.len(),
            ({
                let folded = md_blocks(
                    bs,
                    rsc_dir_name@,
                    *old(image_counter) as int,
                    indent_level as int,
                    i as int,
                );
                &&& out@ == folded.0
                &&& spec_copies_view(copies@) == spec_copies_view(old(copies)@) + folded.1
                &&& *image_counter as int == folded.2
            }),
        decreases bs.len() - i,
    {
        let one = process_block_to_markdown(
            &blocks[i],
            rsc_dir_name,
            image_counter,
            copies,
            indent_level,
        );
        out.append(one.as_str());
        proof {
            assert(bs[i as int] == spec_block_view(blocks@[i as int]));
        }
        i = i + 1;
        proof {
            let pre = md_blocks(
                bs,
                rsc_dir_name@,
                *old(image_counter) as int,
                indent_level as int,
                i - 1,
            );
            let cur = md_blocks(
                bs,
                rsc_dir_name@,
                *old(image_counter) as int,
                indent_level as int,
                i as int,
            );
            assert(cur.1 == pre.1 + md_block(bs[i - 1], rsc_dir_name@, pre.2, indent_level as int).1);
            assert(spec_copies_view(copies@) =~= spec_copies_view(old(copies)@) + cur.1);
        }
    }
    out
}

// ---------------------------------------------------------------------------
// Export planning
// ---------------------------------------------------------------------------
/// Everything an export needs before touching the file system: the full
/// Markdown text, the name of the resource directory beside the output
/// file, and the image copies to make into it.
pub struct ExportPlan {
    pub markdown: String,
    pub rsc_dir_name: String,
    pub copies: Vec<ImageCopy>,
}

/// Whether a path carries the Markdown extension.
pub open spec fn spec_ends_md(p: Seq<char>) -> bool {
    p.len() >= 3 && p.skip(p.len() - 3) == seq!['.', 'm', 'd']
}

/// A file name without its Markdown extension; a name that is nothing but
/// the extension stays whole.
pub open spec fn spec_stem(name: Seq<char>) -> Seq<char> {
    if name.len() > 3 && name.skip(name.len() - 3) == seq!['.', 'm', 'd'] {
        name.take(name.len() - 3)
    } else {
        name
    }
}

/// The resource directory name an output path determines: the output
/// file's stem with the resource suffix.
pub open spec fn spec_rsc_dir(p: Seq<char>) -> Seq<char> {
    spec_stem(spec_file_name(p)) + seq!['.', 'r', 's', 'c']
}

/// Plan the export of a block sequence: reject an output path without the
/// Markdown extension, otherwise render everything from a fresh image
/// counter and name the resource directory after the output file.
pub fn plan_export(blocks: &Vec<Block>, output_md_path: &str) -> (r: Option<ExportPlan>)
    ensures
        r is Some <==> spec_ends_md(output_md_path@),
        spec_ends_md(output_md_path@) ==> ({
            let folded = md_blocks(
                spec_blocks_view(blocks@),
                spec_rsc_dir(output_md_path@),
                0,
                0,
                blocks@.len() as int,
            );
            &&& r.unwrap().markdown@ == folded.0
            &&& spec_copies_view(r.unwrap().copies@) == folded.1
            &&& r.unwrap().rsc_dir_name@ == spec_rsc_dir(output_md_path@)
        }),
{
    let chars = str_chars(output_md_path);
    let n = chars.len();
    if n < 3 || !(chars[n - 3] == '.' && chars[n - 2] == 'm' && chars[n - 1] == 'd') {
        proof {
            if spec_ends_md(output_md_path@) {
                assert(output_md_path@.skip(output_md_path@.len() - 3)[0] == '.');
                assert(output_md_path@.skip(output_md_path@.len() - 3)[1] == 'm');
                assert(output_md_path@.skip(output_md_path@.len() - 3)[2] == 'd');
            }
        }
        return None;
    }
    proof {
        assert(chars@.skip(chars@.len() - 3) =~= seq!['.', 'm', 'd']);
    }
    let mut name = file_name_chars(&chars);
    let m = name.len();
    if m > 3 && name[m - 3] == '.' && name[m - 2] == 'm' && name[m - 1] == 'd' {
        proof {
            assert(name@.skip(name@.len() - 3) =~= seq!['.', 'm', 'd']);
        }
        name.truncate(m - 3);
    } else {
        proof {
            if name@.len() > 3 && name@.skip(name@.len() - 3) == seq!['.', 'm', 'd'] {
                assert(name@.skip(name@.len() - 3)[0] == '.');
                assert(name@.skip(name@.len() - 3)[1] == 'm');
                assert(name@.skip(name@.len() - 3)[2] == 'd');
            }
        }
    }
    let mut rsc = chars_to_string(&name);
    rsc.append(".rsc");
    proof {
        reveal_strlit(".rsc");
        assert(".rsc"@ =~= seq!['.', 'r', 's', 'c']);
        assert(rsc@ == spec_rsc_dir(output_md_path@));
    }
    let mut counter: u64 = 0;
    let mut copies: Vec<ImageCopy> = Vec::new();
    proof {
        assert(spec_copies_view(copies@) =~= Seq::<SpecImageCopy>::empty());
    }
    let markdown = format_following(blocks, rsc.as_str(), &mut counter, &mut copies, 0);
    proof {
        assert(Seq::<SpecImageCopy>::empty() + md_blocks(
            spec_blocks_view(blocks@),
            spec_rsc_dir(output_md_path@),
            0,
            0,
            blocks@.len() as int,
        ).1 =~= md_blocks(
            spec_blocks_view(blocks@),
            spec_rsc_dir(output_md_path@),
            0,
            0,
            blocks@.len() as int,
        ).1);
    }
    Some(ExportPlan { markdown, rsc_dir_name: rsc, copies })
}

} // verus!
