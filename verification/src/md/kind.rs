//! The kinds of tokens in the tree, named after micromark's token types.

use vstd::prelude::*;

verus! {

/// Token type. Each variant stands for the micromark token type of the same
/// name (lower camel case in micromark), see [`Kind::name`].
#[derive(Clone, Copy, Debug, PartialEq, Eq, Structural)]
pub enum Kind {
    AtxHeading,
    AtxHeadingSequence,
    AtxHeadingText,
    Autolink,
    AutolinkEmail,
    AutolinkMarker,
    AutolinkProtocol,
    BlockQuote,
    BlockQuoteMarker,
    BlockQuotePrefix,
    BlockQuotePrefixWhitespace,
    CharacterEscapeValue,
    CodeFenced,
    CodeFencedFence,
    CodeFencedFenceInfo,
    CodeFencedFenceMeta,
    CodeFencedFenceSequence,
    CodeFlowValue,
    CodeIndented,
    CodeText,
    CodeTextData,
    CodeTextPadding,
    CodeTextSequence,
    Content,
    Data,
    Definition,
    Emphasis,
    EmphasisSequence,
    EmphasisText,
    GfmFootnoteDefinitionIndent,
    HtmlFlow,
    HtmlText,
    Image,
    Label,
    LabelImageMarker,
    LabelMarker,
    LabelText,
    LineEnding,
    LineEndingBlank,
    LinePrefix,
    Link,
    ListItemIndent,
    ListItemMarker,
    ListItemPrefix,
    ListItemPrefixWhitespace,
    ListItemValue,
    ListOrdered,
    ListUnordered,
    LiteralAutolink,
    LiteralAutolinkEmail,
    LiteralAutolinkHttp,
    LiteralAutolinkWww,
    MathFlow,
    MathText,
    MathTextData,
    Paragraph,
    Reference,
    ReferenceMarker,
    ReferenceString,
    Resource,
    ResourceDestination,
    ResourceDestinationLiteral,
    ResourceDestinationRaw,
    ResourceDestinationString,
    ResourceMarker,
    ResourceTitle,
    ResourceTitleString,
    SetextHeading,
    SetextHeadingLine,
    SetextHeadingLineSequence,
    SetextHeadingText,
    Strong,
    StrongSequence,
    StrongText,
    Table,
    TableBody,
    TableCellDivider,
    TableContent,
    TableData,
    TableDelimiter,
    TableDelimiterFiller,
    TableDelimiterRow,
    TableHead,
    TableHeader,
    TableRow,
    ThematicBreak,
    ThematicBreakSequence,
    UndefinedReference,
    UndefinedReferenceCollapsed,
    UndefinedReferenceFull,
    UndefinedReferenceShortcut,
    Whitespace,
}

/// The micromark name of each token type.
pub open spec fn spec_kind_name(k: Kind) -> Seq<char> {
    match k {
        Kind::AtxHeading => "atxHeading"@,
        Kind::AtxHeadingSequence => "atxHeadingSequence"@,
        Kind::AtxHeadingText => "atxHeadingText"@,
        Kind::Autolink => "autolink"@,
        Kind::AutolinkEmail => "autolinkEmail"@,
        Kind::AutolinkMarker => "autolinkMarker"@,
        Kind::AutolinkProtocol => "autolinkProtocol"@,
        Kind::BlockQuote => "blockQuote"@,
        Kind::BlockQuoteMarker => "blockQuoteMarker"@,
        Kind::BlockQuotePrefix => "blockQuotePrefix"@,
        Kind::BlockQuotePrefixWhitespace => "blockQuotePrefixWhitespace"@,
        Kind::CharacterEscapeValue => "characterEscapeValue"@,
        Kind::CodeFenced => "codeFenced"@,
        Kind::CodeFencedFence => "codeFencedFence"@,
        Kind::CodeFencedFenceInfo => "codeFencedFenceInfo"@,
        Kind::CodeFencedFenceMeta => "codeFencedFenceMeta"@,
        Kind::CodeFencedFenceSequence => "codeFencedFenceSequence"@,
        Kind::CodeFlowValue => "codeFlowValue"@,
        Kind::CodeIndented => "codeIndented"@,
        Kind::CodeText => "codeText"@,
        Kind::CodeTextData => "codeTextData"@,
        Kind::CodeTextPadding => "codeTextPadding"@,
        Kind::CodeTextSequence => "codeTextSequence"@,
        Kind::Content => "content"@,
        Kind::Data => "data"@,
        Kind::Definition => "definition"@,
        Kind::Emphasis => "emphasis"@,
        Kind::EmphasisSequence => "emphasisSequence"@,
        Kind::EmphasisText => "emphasisText"@,
        Kind::GfmFootnoteDefinitionIndent => "gfmFootnoteDefinitionIndent"@,
        Kind::HtmlFlow => "htmlFlow"@,
        Kind::HtmlText => "htmlText"@,
        Kind::Image => "image"@,
        Kind::Label => "label"@,
        Kind::LabelImageMarker => "labelImageMarker"@,
        Kind::LabelMarker => "labelMarker"@,
        Kind::LabelText => "labelText"@,
        Kind::LineEnding => "lineEnding"@,
        Kind::LineEndingBlank => "lineEndingBlank"@,
        Kind::LinePrefix => "linePrefix"@,
        Kind::Link => "link"@,
        Kind::ListItemIndent => "listItemIndent"@,
        Kind::ListItemMarker => "listItemMarker"@,
        Kind::ListItemPrefix => "listItemPrefix"@,
        Kind::ListItemPrefixWhitespace => "listItemPrefixWhitespace"@,
        Kind::ListItemValue => "listItemValue"@,
        Kind::ListOrdered => "listOrdered"@,
        Kind::ListUnordered => "listUnordered"@,
        Kind::LiteralAutolink => "literalAutolink"@,
        Kind::LiteralAutolinkEmail => "literalAutolinkEmail"@,
        Kind::LiteralAutolinkHttp => "literalAutolinkHttp"@,
        Kind::LiteralAutolinkWww => "literalAutolinkWww"@,
        Kind::MathFlow => "mathFlow"@,
        Kind::MathText => "mathText"@,
        Kind::MathTextData => "mathTextData"@,
        Kind::Paragraph => "paragraph"@,
        Kind::Reference => "reference"@,
        Kind::ReferenceMarker => "referenceMarker"@,
        Kind::ReferenceString => "referenceString"@,
        Kind::Resource => "resource"@,
        Kind::ResourceDestination => "resourceDestination"@,
        Kind::ResourceDestinationLiteral => "resourceDestinationLiteral"@,
        Kind::ResourceDestinationRaw => "resourceDestinationRaw"@,
        Kind::ResourceDestinationString => "resourceDestinationString"@,
        Kind::ResourceMarker => "resourceMarker"@,
        Kind::ResourceTitle => "resourceTitle"@,
        Kind::ResourceTitleString => "resourceTitleString"@,
        Kind::SetextHeading => "setextHeading"@,
        Kind::SetextHeadingLine => "setextHeadingLine"@,
        Kind::SetextHeadingLineSequence => "setextHeadingLineSequence"@,
        Kind::SetextHeadingText => "setextHeadingText"@,
        Kind::Strong => "strong"@,
        Kind::StrongSequence => "strongSequence"@,
        Kind::StrongText => "strongText"@,
        Kind::Table => "table"@,
        Kind::TableBody => "tableBody"@,
        Kind::TableCellDivider => "tableCellDivider"@,
        Kind::TableContent => "tableContent"@,
        Kind::TableData => "tableData"@,
        Kind::TableDelimiter => "tableDelimiter"@,
        Kind::TableDelimiterFiller => "tableDelimiterFiller"@,
        Kind::TableDelimiterRow => "tableDelimiterRow"@,
        Kind::TableHead => "tableHead"@,
        Kind::TableHeader => "tableHeader"@,
        Kind::TableRow => "tableRow"@,
        Kind::ThematicBreak => "thematicBreak"@,
        Kind::ThematicBreakSequence => "thematicBreakSequence"@,
        Kind::UndefinedReference => "undefinedReference"@,
        Kind::UndefinedReferenceCollapsed => "undefinedReferenceCollapsed"@,
        Kind::UndefinedReferenceFull => "undefinedReferenceFull"@,
        Kind::UndefinedReferenceShortcut => "undefinedReferenceShortcut"@,
        Kind::Whitespace => "whitespace"@,
    }
}

impl Kind {
    /// The micromark name of this token type.
    pub fn name(&self) -> (r: &'static str)
        ensures
            r@ == spec_kind_name(*self),
    {
        match self {
            Kind::AtxHeading => "atxHeading",
            Kind::AtxHeadingSequence => "atxHeadingSequence",
            Kind::AtxHeadingText => "atxHeadingText",
            Kind::Autolink => "autolink",
            Kind::AutolinkEmail => "autolinkEmail",
            Kind::AutolinkMarker => "autolinkMarker",
            Kind::AutolinkProtocol => "autolinkProtocol",
            Kind::BlockQuote => "blockQuote",
            Kind::BlockQuoteMarker => "blockQuoteMarker",
            Kind::BlockQuotePrefix => "blockQuotePrefix",
            Kind::BlockQuotePrefixWhitespace => "blockQuotePrefixWhitespace",
            Kind::CharacterEscapeValue => "characterEscapeValue",
            Kind::CodeFenced => "codeFenced",
            Kind::CodeFencedFence => "codeFencedFence",
            Kind::CodeFencedFenceInfo => "codeFencedFenceInfo",
            Kind::CodeFencedFenceMeta => "codeFencedFenceMeta",
            Kind::CodeFencedFenceSequence => "codeFencedFenceSequence",
            Kind::CodeFlowValue => "codeFlowValue",
            Kind::CodeIndented => "codeIndented",
            Kind::CodeText => "codeText",
            Kind::CodeTextData => "codeTextData",
            Kind::CodeTextPadding => "codeTextPadding",
            Kind::CodeTextSequence => "codeTextSequence",
            Kind::Content => "content",
            Kind::Data => "data",
            Kind::Definition => "definition",
            Kind::Emphasis => "emphasis",
            Kind::EmphasisSequence => "emphasisSequence",
            Kind::EmphasisText => "emphasisText",
            Kind::GfmFootnoteDefinitionIndent => "gfmFootnoteDefinitionIndent",
            Kind::HtmlFlow => "htmlFlow",
            Kind::HtmlText => "htmlText",
            Kind::Image => "image",
            Kind::Label => "label",
            Kind::LabelImageMarker => "labelImageMarker",
            Kind::LabelMarker => "labelMarker",
            Kind::LabelText => "labelText",
            Kind::LineEnding => "lineEnding",
            Kind::LineEndingBlank => "lineEndingBlank",
            Kind::LinePrefix => "linePrefix",
            Kind::Link => "link",
            Kind::ListItemIndent => "listItemIndent",
            Kind::ListItemMarker => "listItemMarker",
            Kind::ListItemPrefix => "listItemPrefix",
            Kind::ListItemPrefixWhitespace => "listItemPrefixWhitespace",
            Kind::ListItemValue => "listItemValue",
            Kind::ListOrdered => "listOrdered",
            Kind::ListUnordered => "listUnordered",
            Kind::LiteralAutolink => "literalAutolink",
            Kind::LiteralAutolinkEmail => "literalAutolinkEmail",
            Kind::LiteralAutolinkHttp => "literalAutolinkHttp",
            Kind::LiteralAutolinkWww => "literalAutolinkWww",
            Kind::MathFlow => "mathFlow",
            Kind::MathText => "mathText",
            Kind::MathTextData => "mathTextData",
            Kind::Paragraph => "paragraph",
            Kind::Reference => "reference",
            Kind::ReferenceMarker => "referenceMarker",
            Kind::ReferenceString => "referenceString",
            Kind::Resource => "resource",
            Kind::ResourceDestination => "resourceDestination",
            Kind::ResourceDestinationLiteral => "resourceDestinationLiteral",
            Kind::ResourceDestinationRaw => "resourceDestinationRaw",
            Kind::ResourceDestinationString => "resourceDestinationString",
            Kind::ResourceMarker => "resourceMarker",
            Kind::ResourceTitle => "resourceTitle",
            Kind::ResourceTitleString => "resourceTitleString",
            Kind::SetextHeading => "setextHeading",
            Kind::SetextHeadingLine => "setextHeadingLine",
            Kind::SetextHeadingLineSequence => "setextHeadingLineSequence",
            Kind::SetextHeadingText => "setextHeadingText",
            Kind::Strong => "strong",
            Kind::StrongSequence => "strongSequence",
            Kind::StrongText => "strongText",
            Kind::Table => "table",
            Kind::TableBody => "tableBody",
            Kind::TableCellDivider => "tableCellDivider",
            Kind::TableContent => "tableContent",
            Kind::TableData => "tableData",
            Kind::TableDelimiter => "tableDelimiter",
            Kind::TableDelimiterFiller => "tableDelimiterFiller",
            Kind::TableDelimiterRow => "tableDelimiterRow",
            Kind::TableHead => "tableHead",
            Kind::TableHeader => "tableHeader",
            Kind::TableRow => "tableRow",
            Kind::ThematicBreak => "thematicBreak",
            Kind::ThematicBreakSequence => "thematicBreakSequence",
            Kind::UndefinedReference => "undefinedReference",
            Kind::UndefinedReferenceCollapsed => "undefinedReferenceCollapsed",
            Kind::UndefinedReferenceFull => "undefinedReferenceFull",
            Kind::UndefinedReferenceShortcut => "undefinedReferenceShortcut",
            Kind::Whitespace => "whitespace",
        }
    }
}

/// Whether `k` is one of `kinds`.
pub fn kind_in(k: Kind, kinds: &[Kind]) -> (r: bool)
    ensures
        r == kinds@.contains(k),
{
    let mut i: usize = 0;
    while i < kinds.len()
        invariant
            i <= kinds@.len(),
            forall|j: int| 0 <= j < i ==> kinds@[j] != k,
        decreases kinds@.len() - i,
    {
        if kinds[i] == k {
            return true;
        }
        i += 1;
    }
    false
}

/// Token kinds that carry no textual content.
pub open spec fn spec_is_non_content(k: Kind) -> bool {
    ||| k == Kind::BlockQuoteMarker
    ||| k == Kind::BlockQuotePrefix
    ||| k == Kind::BlockQuotePrefixWhitespace
    ||| k == Kind::GfmFootnoteDefinitionIndent
    ||| k == Kind::LineEnding
    ||| k == Kind::LineEndingBlank
    ||| k == Kind::LinePrefix
    ||| k == Kind::ListItemIndent
    ||| k == Kind::UndefinedReference
    ||| k == Kind::UndefinedReferenceCollapsed
    ||| k == Kind::UndefinedReferenceFull
    ||| k == Kind::UndefinedReferenceShortcut
}

/// Whether `k` is one of the token kinds without textual content
/// (block-quote prefixes, line endings, indents, undefined references).
pub fn is_non_content(k: Kind) -> (r: bool)
    ensures
        r == spec_is_non_content(k),
{
    match k {
        Kind::BlockQuoteMarker | Kind::BlockQuotePrefix | Kind::BlockQuotePrefixWhitespace
        | Kind::GfmFootnoteDefinitionIndent | Kind::LineEnding | Kind::LineEndingBlank
        | Kind::LinePrefix | Kind::ListItemIndent | Kind::UndefinedReference
        | Kind::UndefinedReferenceCollapsed | Kind::UndefinedReferenceFull
        | Kind::UndefinedReferenceShortcut => true,
        _ => false,
    }
}

} // verus!
