//! The Markdown syntax tree, with a ghost model of each node over sequences.
use vstd::prelude::*;

verus! {

/// Inline content.
#[derive(Debug, PartialEq)]
pub enum Inline {
    Text(String),
    Bold(Vec<Inline>),
    Italic(Vec<Inline>),
    Strikethrough(Vec<Inline>),
    Code(String),
    Link { text: Vec<Inline>, url: String, title: Option<String> },
    Image { alt: String, url: String, title: Option<String> },
    Math(String),
    FootnoteRef(String),
    HtmlTag(String),
    HardBreak,
    SoftBreak,
}

/// Model of [`Inline`]: strings as character sequences.
#[verifier::ext_equal]
pub enum InlineModel {
    Text(Seq<char>),
    Bold(Seq<InlineModel>),
    Italic(Seq<InlineModel>),
    Strikethrough(Seq<InlineModel>),
    Code(Seq<char>),
    Link { text: Seq<InlineModel>, url: Seq<char>, title: Option<Seq<char>> },
    Image { alt: Seq<char>, url: Seq<char>, title: Option<Seq<char>> },
    Math(Seq<char>),
    FootnoteRef(Seq<char>),
    HtmlTag(Seq<char>),
    HardBreak,
    SoftBreak,
}

pub open spec fn opt_view(o: Option<String>) -> Option<Seq<char>> {
    match o {
        Some(s) => Some(s@),
        None => None,
    }
}

impl Inline {
    pub open spec fn view(self) -> InlineModel
        decreases self,
    {
        match self {
            Inline::Text(s) => InlineModel::Text(s@),
            Inline::Bold(v) => InlineModel::Bold(Seq::new(v@.len(), |k: int| if 0 <= k < v@.len() { v@[k].view() } else { InlineModel::SoftBreak })),
            Inline::Italic(v) => InlineModel::Italic(Seq::new(v@.len(), |k: int| if 0 <= k < v@.len() { v@[k].view() } else { InlineModel::SoftBreak })),
            Inline::Strikethrough(v) => InlineModel::Strikethrough(
                Seq::new(v@.len(), |k: int| if 0 <= k < v@.len() { v@[k].view() } else { InlineModel::SoftBreak }),
            ),
            Inline::Code(s) => InlineModel::Code(s@),
            Inline::Link { text, url, title } => InlineModel::Link {
                text: Seq::new(text@.len(), |k: int| if 0 <= k < text@.len() { text@[k].view() } else { InlineModel::SoftBreak }),
                url: url@,
                title: opt_view(title),
            },
            Inline::Image { alt, url, title } => InlineModel::Image {
                alt: alt@,
                url: url@,
                title: opt_view(title),
            },
            Inline::Math(s) => InlineModel::Math(s@),
            Inline::FootnoteRef(s) => InlineModel::FootnoteRef(s@),
            Inline::HtmlTag(s) => InlineModel::HtmlTag(s@),
            Inline::HardBreak => InlineModel::HardBreak,
            Inline::SoftBreak => InlineModel::SoftBreak,
        }
    }
}

/// How a list item is marked.
#[derive(Debug, Clone, Copy, PartialEq)]
pub enum ListMarker {
    Dash,
    Plus,
    Star,
    Number(u32),
}

/// Column alignment of a table.
#[derive(Debug, Clone, Copy, PartialEq)]
pub enum TableAlign {
    Left,
    Center,
    Right,
}

/// A parsed document: its front matter and its blocks.
#[derive(Debug, PartialEq)]
pub struct MarkdownDoc {
    pub frontmatter: Option<String>,
    pub blocks: Vec<Block>,
}

/// Block content.
#[derive(Debug, PartialEq)]
pub enum Block {
    Heading { level: u8, children: Vec<Inline> },
    Paragraph(Vec<Inline>),
    CodeBlock { language: Option<String>, code: String },
    List { items: Vec<ListItem> },
    BlockQuote(Vec<Block>),
    Table {
        headers: Vec<Vec<Inline>>,
        aligns: Vec<Option<TableAlign>>,
        rows: Vec<Vec<Vec<Inline>>>,
    },
    ThematicBreak,
    MathBlock { content: String },
    HtmlBlock { content: String },
    FootnoteDefinition { label: String, content: Vec<Block> },
}

/// An item of a list, with the items nested under it.
#[derive(Debug, PartialEq)]
pub struct ListItem {
    pub marker: ListMarker,
    pub children: Vec<Inline>,
    pub sub_items: Vec<ListItem>,
}

/// Model of [`ListItem`].
#[verifier::ext_equal]
pub struct ItemModel {
    pub marker: ListMarker,
    pub children: Seq<InlineModel>,
    pub sub_items: Seq<ItemModel>,
}

/// Model of [`Block`].
#[verifier::ext_equal]
pub enum BlockModel {
    Heading(u8, Seq<InlineModel>),
    Paragraph(Seq<InlineModel>),
    CodeBlock(Option<Seq<char>>, Seq<char>),
    List(Seq<ItemModel>),
    BlockQuote(Seq<BlockModel>),
    Table(Seq<Seq<InlineModel>>, Seq<Option<TableAlign>>, Seq<Seq<Seq<InlineModel>>>),
    ThematicBreak,
    MathBlock(Seq<char>),
    HtmlBlock(Seq<char>),
    FootnoteDefinition(Seq<char>, Seq<BlockModel>),
}

/// Model of [`MarkdownDoc`].
pub struct DocModel {
    pub frontmatter: Option<Seq<char>>,
    pub blocks: Seq<BlockModel>,
}

impl ListItem {
    pub open spec fn view(self) -> ItemModel
        decreases self,
    {
        ItemModel {
            marker: self.marker,
            children: models(self.children@),
            sub_items: Seq::new(
                self.sub_items@.len(),
                |k: int|
                    if 0 <= k < self.sub_items@.len() {
                        self.sub_items@[k].view()
                    } else {
                        ItemModel { marker: ListMarker::Dash, children: seq![], sub_items: seq![] }
                    },
            ),
        }
    }
}

/// The models of a sequence of list items.
pub open spec fn item_models(v: Seq<ListItem>) -> Seq<ItemModel> {
    Seq::new(v.len(), |k: int| v[k].view())
}

/// The models of the cells of a table row.
pub open spec fn row_models(v: Seq<Vec<Inline>>) -> Seq<Seq<InlineModel>> {
    Seq::new(v.len(), |k: int| models(v[k]@))
}

impl Block {
    pub open spec fn view(self) -> BlockModel
        decreases self,
    {
        match self {
            Block::Heading { level, children } => BlockModel::Heading(level, models(children@)),
            Block::Paragraph(children) => BlockModel::Paragraph(models(children@)),
            Block::CodeBlock { language, code } => BlockModel::CodeBlock(opt_view(language), code@),
            Block::List { items } => BlockModel::List(item_models(items@)),
            Block::BlockQuote(v) => BlockModel::BlockQuote(
                Seq::new(
                    v@.len(),
                    |k: int|
                        if 0 <= k < v@.len() {
                            v@[k].view()
                        } else {
                            BlockModel::ThematicBreak
                        },
                ),
            ),
            Block::Table { headers, aligns, rows } => BlockModel::Table(
                row_models(headers@),
                aligns@,
                Seq::new(rows@.len(), |k: int| row_models(rows@[k]@)),
            ),
            Block::ThematicBreak => BlockModel::ThematicBreak,
            Block::MathBlock { content } => BlockModel::MathBlock(content@),
            Block::HtmlBlock { content } => BlockModel::HtmlBlock(content@),
            Block::FootnoteDefinition { label, content } => BlockModel::FootnoteDefinition(
                label@,
                Seq::new(
                    content@.len(),
                    |k: int|
                        if 0 <= k < content@.len() {
                            content@[k].view()
                        } else {
                            BlockModel::ThematicBreak
                        },
                ),
            ),
        }
    }
}

/// The models of a sequence of blocks.
pub open spec fn block_models(v: Seq<Block>) -> Seq<BlockModel> {
    Seq::new(v.len(), |k: int| v[k].view())
}

impl MarkdownDoc {
    pub open spec fn view(self) -> DocModel {
        DocModel { frontmatter: opt_view(self.frontmatter), blocks: block_models(self.blocks@) }
    }
}

/// The model of a quote is built from the models of its blocks.
pub proof fn lemma_quote_model(v: Vec<Block>)
    ensures
        Block::BlockQuote(v).view() == BlockModel::BlockQuote(block_models(v@)),
{
    assert(Block::BlockQuote(v).view()->BlockQuote_0 =~= block_models(v@));
}

/// The model of a footnote definition is built from the models of its blocks.
pub proof fn lemma_footnote_model(v: Vec<Block>, label: String)
    ensures
        (Block::FootnoteDefinition { label, content: v }).view() == BlockModel::FootnoteDefinition(
            label@,
            block_models(v@),
        ),
{
    assert((Block::FootnoteDefinition { label, content: v }).view()->FootnoteDefinition_1
        =~= block_models(v@));
}

/// Pushing a block appends its model.
pub proof fn lemma_block_models_push(v: Seq<Block>, x: Block)
    ensures
        block_models(v.push(x)) == block_models(v).push(x.view()),
{
    assert(block_models(v.push(x)) =~= block_models(v).push(x.view()));
}

/// The models of a sequence of inline nodes.
pub open spec fn models(v: Seq<Inline>) -> Seq<InlineModel> {
    Seq::new(v.len(), |k: int| v[k].view())
}

/// The model of a node with children is built from the children's models.
pub proof fn lemma_children_models(v: Vec<Inline>)
    ensures
        Inline::Bold(v).view() == InlineModel::Bold(models(v@)),
        Inline::Italic(v).view() == InlineModel::Italic(models(v@)),
        Inline::Strikethrough(v).view() == InlineModel::Strikethrough(models(v@)),
{
    assert(Inline::Bold(v).view()->Bold_0 =~= models(v@));
    assert(Inline::Italic(v).view()->Italic_0 =~= models(v@));
    assert(Inline::Strikethrough(v).view()->Strikethrough_0 =~= models(v@));
}

/// The model of a link is built from the models of its text.
pub proof fn lemma_link_model(v: Vec<Inline>, url: String, title: Option<String>)
    ensures
        (Inline::Link { text: v, url, title }).view() == (InlineModel::Link {
            text: models(v@),
            url: url@,
            title: opt_view(title),
        }),
{
    lemma_children_models(v);
}

/// Pushing a node appends its model.
pub proof fn lemma_models_push(v: Seq<Inline>, x: Inline)
    ensures
        models(v.push(x)) == models(v).push(x.view()),
{
    assert(models(v.push(x)) =~= models(v).push(x.view()));
}

} // verus!
