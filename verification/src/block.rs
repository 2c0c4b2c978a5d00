//! Content block types: the classified payload of a single node and the
//! nested block tree that reconciliation produces.

use vstd::prelude::*;

verus! {

/// One styled run of text inside a paragraph or a list headline.
#[derive(Debug, Default, PartialEq)]
pub struct TextSlice {
    pub text: String,
    pub is_bold: bool,
    pub is_underline: bool,
    pub is_code: bool,
    pub link: Option<String>,
}

/// Mathematical model of a [`TextSlice`].
pub struct SpecTextSlice {
    pub text: Seq<char>,
    pub is_bold: bool,
    pub is_underline: bool,
    pub is_code: bool,
    pub link: Option<Seq<char>>,
}

/// Depth of a heading, from the outermost level downward.
#[derive(Debug, Clone, Copy, PartialEq, Eq, Structural)]
pub enum HeadLevel {
    H1,
    H2,
    H3,
    H4,
    H5,
    H6,
    H7,
    H8,
    H9,
    H10,
}

/// The three list flavours a list item can belong to.
#[derive(Debug, Clone, Copy, PartialEq, Eq, Structural)]
pub enum ListType {
    Ordered,
    Unordered,
    Task,
}

/// One list item: an optional done mark (task lists only), the headline
/// text, and the blocks nested under the item.
#[derive(Debug, PartialEq)]
pub struct ListOne {
    pub done: Option<bool>,
    pub headline: Vec<TextSlice>,
    pub following: Vec<Block>,
}

/// A block of document content. `List` owns its items; items own their
/// following blocks, so ownership is strictly tree-shaped.
#[derive(Debug, PartialEq)]
pub enum Block {
    Text(Vec<TextSlice>),
    Title { text: String, head_level: HeadLevel },
    List { list_type: ListType, items: Vec<ListOne> },
    Image { cached_path: String },
    Code { language: String, code: String },
}

/// Mathematical model of a [`ListOne`].
pub struct SpecListOne {
    pub done: Option<bool>,
    pub headline: Seq<SpecTextSlice>,
    pub following: Seq<SpecBlock>,
}

/// Mathematical model of a [`Block`].
pub enum SpecBlock {
    Text(Seq<SpecTextSlice>),
    Title { text: Seq<char>, head_level: HeadLevel },
    List { list_type: ListType, items: Seq<SpecListOne> },
    Image { cached_path: Seq<char> },
    Code { language: Seq<char>, code: Seq<char> },
}

/// A value of exactly one of two types. The classifier hands back either a
/// terminal block or a list item through this.
#[derive(Debug)]
pub enum OneOf<A, B> {
    A(A),
    B(B),
}

impl<A: Clone, B: Clone> Clone for OneOf<A, B> {
    fn clone(&self) -> Self {
        match self {
            OneOf::A(a) => OneOf::A(a.clone()),
            OneOf::B(b) => OneOf::B(b.clone()),
        }
    }
}

/// The classified content of one raw node: a terminal block, or a list
/// item together with its list flavour.
pub type Payload = OneOf<Block, (ListType, ListOne)>;

/// Mathematical model of a [`Payload`].
pub enum SpecPayload {
    Terminal(SpecBlock),
    Item(ListType, SpecListOne),
}

pub open spec fn spec_link_view(link: Option<String>) -> Option<Seq<char>> {
    match link {
        Some(s) => Some(s@),
        None => None,
    }
}

impl View for TextSlice {
    type V = SpecTextSlice;

    open spec fn view(&self) -> SpecTextSlice {
        SpecTextSlice {
            text: self.text@,
            is_bold: self.is_bold,
            is_underline: self.is_underline,
            is_code: self.is_code,
            link: spec_link_view(self.link),
        }
    }
}

/// The slice sequence a vector of text slices stands for.
pub open spec fn spec_slices_view(v: Seq<TextSlice>) -> Seq<SpecTextSlice> {
    v.map_values(|t: TextSlice| t@)
}

/// The block sequence a vector of blocks stands for.
pub open spec fn spec_blocks_view(v: Seq<Block>) -> Seq<SpecBlock>
    decreases v,
{
    Seq::new(
        v.len(),
        |i: int|
            if 0 <= i < v.len() {
                spec_block_view(v[i])
            } else {
                SpecBlock::Text(Seq::empty())
            },
    )
}

/// The item sequence a vector of list items stands for.
pub open spec fn spec_items_view(v: Seq<ListOne>) -> Seq<SpecListOne>
    decreases v,
{
    Seq::new(
        v.len(),
        |i: int|
            if 0 <= i < v.len() {
                spec_list_one_view(v[i])
            } else {
                SpecListOne { done: None, headline: Seq::empty(), following: Seq::empty() }
            },
    )
}

pub open spec fn spec_block_view(b: Block) -> SpecBlock
    decreases b,
{
    match b {
        Block::Text(slices) => SpecBlock::Text(spec_slices_view(slices@)),
        Block::Title { text, head_level } => SpecBlock::Title { text: text@, head_level },
        Block::List { list_type, items } => SpecBlock::List {
            list_type,
            items: spec_items_view(items@),
        },
        Block::Image { cached_path } => SpecBlock::Image { cached_path: cached_path@ },
        Block::Code { language, code } => SpecBlock::Code { language: language@, code: code@ },
    }
}

pub open spec fn spec_list_one_view(l: ListOne) -> SpecListOne
    decreases l,
{
    SpecListOne {
        done: l.done,
        headline: spec_slices_view(l.headline@),
        following: spec_blocks_view(l.following@),
    }
}

impl View for Block {
    type V = SpecBlock;

    open spec fn view(&self) -> SpecBlock {
        spec_block_view(*self)
    }
}

impl View for ListOne {
    type V = SpecListOne;

    open spec fn view(&self) -> SpecListOne {
        spec_list_one_view(*self)
    }
}

pub open spec fn spec_payload_view(p: Payload) -> SpecPayload {
    match p {
        OneOf::A(b) => SpecPayload::Terminal(spec_block_view(b)),
        OneOf::B((t, l)) => SpecPayload::Item(t, spec_list_one_view(l)),
    }
}

impl Clone for TextSlice {
    fn clone(&self) -> (r: Self)
        ensures
            r == *self,
    {
        TextSlice {
            text: self.text.clone(),
            is_bold: self.is_bold,
            is_underline: self.is_underline,
            is_code: self.is_code,
            link: match &self.link {
                Some(u) => Some(u.clone()),
                None => None,
            },
        }
    }
}

/// An element-by-element copy of a run of text slices.
pub fn clone_slices(v: &Vec<TextSlice>) -> (r: Vec<TextSlice>)
    ensures
        r@ == v@,
{
    let mut r: Vec<TextSlice> = Vec::new();
    let mut i: usize = 0;
    while i < v.len()
        invariant
            0 <= i <= v@.len(),
            r@ =~= v@.take(i as int),
        decreases v@.len() - i,
    {
        r.push(v[i].clone());
        i = i + 1;
    }
    proof {
        assert(v@.take(v@.len() as int) =~= v@);
    }
    r
}

/// A deep copy of a block, equal to the original at the model level.
pub fn clone_block(b: &Block) -> (r: Block)
    ensures
        r@ == b@,
    decreases *b,
{
    match b {
        Block::Text(slices) => Block::Text(clone_slices(slices)),
        Block::Title { text, head_level } => Block::Title {
            text: text.clone(),
            head_level: *head_level,
        },
        Block::List { list_type, items } => Block::List {
            list_type: *list_type,
            items: clone_items(items),
        },
        Block::Image { cached_path } => Block::Image { cached_path: cached_path.clone() },
        Block::Code { language, code } => Block::Code {
            language: language.clone(),
            code: code.clone(),
        },
    }
}

/// A deep copy of a vector of list items.
pub fn clone_items(v: &Vec<ListOne>) -> (r: Vec<ListOne>)
    ensures
        spec_items_view(r@) == spec_items_view(v@),
    decreases *v,
{
    let mut out: Vec<ListOne> = Vec::new();
    let mut i: usize = 0;
    while i < v.len()
        invariant
            0 <= i <= v@.len(),
            out@.len() == i,
            forall|m: int| 0 <= m < i ==> spec_list_one_view(out@[m]) == spec_list_one_view(v@[m]),
        decreases v@.len() - i,
    {
        out.push(clone_list_one(&v[i]));
        i = i + 1;
    }
    proof {
        assert(spec_items_view(out@) =~= spec_items_view(v@));
    }
    out
}

/// A deep copy of a vector of blocks.
pub fn clone_blocks(v: &Vec<Block>) -> (r: Vec<Block>)
    ensures
        spec_blocks_view(r@) == spec_blocks_view(v@),
    decreases *v,
{
    let mut out: Vec<Block> = Vec::new();
    let mut i: usize = 0;
    while i < v.len()
        invariant
            0 <= i <= v@.len(),
            out@.len() == i,
            forall|m: int| 0 <= m < i ==> spec_block_view(out@[m]) == spec_block_view(v@[m]),
        decreases v@.len() - i,
    {
        out.push(clone_block(&v[i]));
        i = i + 1;
    }
    proof {
        assert(spec_blocks_view(out@) =~= spec_blocks_view(v@));
    }
    out
}

/// A deep copy of a list item, equal to the original at the model level.
pub fn clone_list_one(l: &ListOne) -> (r: ListOne)
    ensures
        r@ == l@,
    decreases *l,
{
    ListOne {
        done: l.done,
        headline: clone_slices(&l.headline),
        following: clone_blocks(&l.following),
    }
}

impl Clone for Block {
    fn clone(&self) -> (r: Self)
        ensures
            r@ == self@,
    {
        clone_block(self)
    }
}

impl Clone for ListOne {
    fn clone(&self) -> (r: Self)
        ensures
            r@ == self@,
    {
        clone_list_one(self)
    }
}

impl ListOne {
    pub fn new(headline: Vec<TextSlice>, done: Option<bool>, following: Vec<Block>) -> (r: Self)
        ensures
            r@ == (SpecListOne {
                done,
                headline: spec_slices_view(headline@),
                following: spec_blocks_view(following@),
            }),
    {
        Self { headline, done, following }
    }

    pub fn get_headline(&self) -> (r: &Vec<TextSlice>)
        ensures
            spec_slices_view(r@) == self@.headline,
    {
        &self.headline
    }

    pub fn get_done(&self) -> (r: &Option<bool>)
        ensures
            *r == self@.done,
    {
        &self.done
    }

    pub fn get_following(&self) -> (r: &Vec<Block>)
        ensures
            spec_blocks_view(r@) == self@.following,
    {
        &self.following
    }

    pub fn get_following_mut(&mut self) -> (r: &mut Vec<Block>)
        ensures
            *r == old(self).following,
            final(self).done == old(self).done,
            final(self).headline == old(self).headline,
            final(self).following == *final(r),
    {
        &mut self.following
    }
}

} // verus!
