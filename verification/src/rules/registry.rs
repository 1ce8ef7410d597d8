//! The registry of rules: each rule's names, description, tags, and the
//! function that checks it.

use vstd::prelude::*;

use super::{Emit, Params, RuleError, appended, params_ok};

verus! {

/// A rule, by its primary name.
#[derive(Clone, Copy, Debug, PartialEq, Eq, Structural)]
pub enum RuleId {
    Md001,
    Md003,
    Md004,
    Md005,
    Md007,
    Md009,
    Md010,
    Md011,
    Md012,
    Md013,
    Md014,
    Md018,
    Md019,
    Md020,
    Md021,
    Md022,
    Md023,
    Md024,
    Md025,
    Md026,
    Md027,
    Md028,
    Md029,
    Md030,
    Md031,
    Md032,
    Md033,
    Md034,
    Md035,
    Md036,
    Md037,
    Md038,
    Md039,
    Md040,
    Md041,
    Md042,
    Md043,
    Md044,
    Md045,
    Md046,
    Md047,
    Md048,
    Md049,
    Md050,
    Md051,
    Md052,
    Md053,
    Md054,
    Md055,
    Md056,
    Md058,
    Md059,
}

/// Number of rules.
pub open spec fn rule_count() -> nat {
    52
}

/// What running rule `r` reports: the problems its check appends to
/// `old_errors`. MD052, MD053 and MD054 (the reference-definition rules)
/// have no check in this library and report nothing.
pub open spec fn rule_reported(r: RuleId, p: &Params, old_errors: Seq<RuleError>, new_errors: Seq<RuleError>) -> bool {
    match r {
        RuleId::Md001 => super::md001::md001_reported(p, old_errors, new_errors),
        RuleId::Md003 => super::md003::md003_reported(p, old_errors, new_errors),
        RuleId::Md004 => super::md004::md004_reported(p, old_errors, new_errors),
        RuleId::Md005 => super::md005::md005_reported(p, old_errors, new_errors),
        RuleId::Md007 => super::md007::md007_reported(p, old_errors, new_errors),
        RuleId::Md009 => super::md009::md009_reported(p, old_errors, new_errors),
        RuleId::Md010 => super::md010::md010_reported(p, old_errors, new_errors),
        RuleId::Md011 => super::md011::md011_reported(p, old_errors, new_errors),
        RuleId::Md012 => super::md012::md012_reported(p, old_errors, new_errors),
        RuleId::Md013 => super::md013::md013_reported(p, old_errors, new_errors),
        RuleId::Md014 => super::md014::md014_reported(p, old_errors, new_errors),
        RuleId::Md018 => super::md018::md018_reported(p, old_errors, new_errors),
        RuleId::Md019 => super::md019::md019_reported(p, old_errors, new_errors),
        RuleId::Md021 => super::md019::md021_reported(p, old_errors, new_errors),
        RuleId::Md020 => super::md020::md020_reported(p, old_errors, new_errors),
        RuleId::Md022 => super::md022::md022_reported(p, old_errors, new_errors),
        RuleId::Md023 => super::md023::md023_reported(p, old_errors, new_errors),
        RuleId::Md024 => super::md024::md024_reported(p, old_errors, new_errors),
        RuleId::Md025 => super::md025::md025_reported(p, old_errors, new_errors),
        RuleId::Md026 => super::md026::md026_reported(p, old_errors, new_errors),
        RuleId::Md027 => super::md027::md027_reported(p, old_errors, new_errors),
        RuleId::Md028 => super::md028::md028_reported(p, old_errors, new_errors),
        RuleId::Md029 => super::md029::md029_reported(p, old_errors, new_errors),
        RuleId::Md030 => super::md030::md030_reported(p, old_errors, new_errors),
        RuleId::Md031 => super::md031::md031_reported(p, old_errors, new_errors),
        RuleId::Md032 => super::md032::md032_reported(p, old_errors, new_errors),
        RuleId::Md033 => super::md033::md033_reported(p, old_errors, new_errors),
        RuleId::Md034 => super::md034::md034_reported(p, old_errors, new_errors),
        RuleId::Md035 => super::md035::md035_reported(p, old_errors, new_errors),
        RuleId::Md036 => super::md036::md036_reported(p, old_errors, new_errors),
        RuleId::Md037 => super::md037::md037_reported(p, old_errors, new_errors),
        RuleId::Md038 => super::md038::md038_reported(p, old_errors, new_errors),
        RuleId::Md039 => super::md039::md039_reported(p, old_errors, new_errors),
        RuleId::Md040 => super::md040::md040_reported(p, old_errors, new_errors),
        RuleId::Md041 => super::md041::md041_reported(p, old_errors, new_errors),
        RuleId::Md042 => super::md042::md042_reported(p, old_errors, new_errors),
        RuleId::Md043 => super::md043::md043_reported(p, old_errors, new_errors),
        RuleId::Md044 => super::md044::md044_reported(p, old_errors, new_errors),
        RuleId::Md045 => super::md045::md045_reported(p, old_errors, new_errors),
        RuleId::Md046 => super::md046::md046_reported(p, old_errors, new_errors),
        RuleId::Md047 => super::md047::md047_reported(p, old_errors, new_errors),
        RuleId::Md048 => super::md048::md048_reported(p, old_errors, new_errors),
        RuleId::Md049 => super::md049::md049_reported(p, old_errors, new_errors),
        RuleId::Md050 => super::md049::md050_reported(p, old_errors, new_errors),
        RuleId::Md051 => super::md051::md051_reported(p, old_errors, new_errors),
        RuleId::Md055 => super::md055::md055_reported(p, old_errors, new_errors),
        RuleId::Md056 => super::md056::md056_reported(p, old_errors, new_errors),
        RuleId::Md058 => super::md058::md058_reported(p, old_errors, new_errors),
        RuleId::Md059 => super::md059::md059_reported(p, old_errors, new_errors),
        // MD052, MD053, MD054: no check here; nothing is reported.
        _ => new_errors == old_errors,
    }
}

/// What each rule checks.
pub open spec fn spec_rule_description(r: RuleId) -> Seq<char> {
    match r {
        RuleId::Md001 => "Heading levels should only increment by one level at a time"@,
        RuleId::Md003 => "Heading style"@,
        RuleId::Md004 => "Unordered list style"@,
        RuleId::Md005 => "Inconsistent indentation for list items at the same level"@,
        RuleId::Md007 => "Unordered list indentation"@,
        RuleId::Md009 => "Trailing spaces"@,
        RuleId::Md010 => "Hard tabs"@,
        RuleId::Md011 => "Reversed link syntax"@,
        RuleId::Md012 => "Multiple consecutive blank lines"@,
        RuleId::Md013 => "Line length"@,
        RuleId::Md014 => "Dollar signs used before commands without showing output"@,
        RuleId::Md018 => "No space after hash on atx style heading"@,
        RuleId::Md019 => "Multiple spaces after hash on atx style heading"@,
        RuleId::Md020 => "No space inside hashes on closed atx style heading"@,
        RuleId::Md021 => "Multiple spaces inside hashes on closed atx style heading"@,
        RuleId::Md022 => "Headings should be surrounded by blank lines"@,
        RuleId::Md023 => "Headings must start at the beginning of the line"@,
        RuleId::Md024 => "Multiple headings with the same content"@,
        RuleId::Md025 => "Multiple top-level headings in the same document"@,
        RuleId::Md026 => "Trailing punctuation in heading"@,
        RuleId::Md027 => "Multiple spaces after blockquote symbol"@,
        RuleId::Md028 => "Blank line inside blockquote"@,
        RuleId::Md029 => "Ordered list item prefix"@,
        RuleId::Md030 => "Spaces after list markers"@,
        RuleId::Md031 => "Fenced code blocks should be surrounded by blank lines"@,
        RuleId::Md032 => "Lists should be surrounded by blank lines"@,
        RuleId::Md033 => "Inline HTML"@,
        RuleId::Md034 => "Bare URL used"@,
        RuleId::Md035 => "Horizontal rule style"@,
        RuleId::Md036 => "Emphasis used instead of a heading"@,
        RuleId::Md037 => "Spaces inside emphasis markers"@,
        RuleId::Md038 => "Spaces inside code span elements"@,
        RuleId::Md039 => "Spaces inside link text"@,
        RuleId::Md040 => "Fenced code blocks should have a language specified"@,
        RuleId::Md041 => "First line in a file should be a top-level heading"@,
        RuleId::Md042 => "No empty links"@,
        RuleId::Md043 => "Required heading structure"@,
        RuleId::Md044 => "Proper names should have the correct capitalization"@,
        RuleId::Md045 => "Images should have alternate text (alt text)"@,
        RuleId::Md046 => "Code block style"@,
        RuleId::Md047 => "Files should end with a single newline character"@,
        RuleId::Md048 => "Code fence style"@,
        RuleId::Md049 => "Emphasis style"@,
        RuleId::Md050 => "Strong style"@,
        RuleId::Md051 => "Link fragments should be valid"@,
        RuleId::Md052 => "Reference links and images should use a label that is defined"@,
        RuleId::Md053 => "Link and image reference definitions should be needed"@,
        RuleId::Md054 => "Link and image style"@,
        RuleId::Md055 => "Table pipe style"@,
        RuleId::Md056 => "Table column count"@,
        RuleId::Md058 => "Tables should be surrounded by blank lines"@,
        RuleId::Md059 => "Link text should be descriptive"@,
    }
}

/// The names of a rule: its id first, then its aliases.
pub open spec fn spec_rule_names(r: RuleId) -> Seq<Seq<char>> {
    match r {
        RuleId::Md001 => seq!["MD001"@, "heading-increment"@],
        RuleId::Md003 => seq!["MD003"@, "heading-style"@],
        RuleId::Md004 => seq!["MD004"@, "ul-style"@],
        RuleId::Md005 => seq!["MD005"@, "list-indent"@],
        RuleId::Md007 => seq!["MD007"@, "ul-indent"@],
        RuleId::Md009 => seq!["MD009"@, "no-trailing-spaces"@],
        RuleId::Md010 => seq!["MD010"@, "no-hard-tabs"@],
        RuleId::Md011 => seq!["MD011"@, "no-reversed-links"@],
        RuleId::Md012 => seq!["MD012"@, "no-multiple-blanks"@],
        RuleId::Md013 => seq!["MD013"@, "line-length"@],
        RuleId::Md014 => seq!["MD014"@, "commands-show-output"@],
        RuleId::Md018 => seq!["MD018"@, "no-missing-space-atx"@],
        RuleId::Md019 => seq!["MD019"@, "no-multiple-space-atx"@],
        RuleId::Md020 => seq!["MD020"@, "no-missing-space-closed-atx"@],
        RuleId::Md021 => seq!["MD021"@, "no-multiple-space-closed-atx"@],
        RuleId::Md022 => seq!["MD022"@, "blanks-around-headings"@],
        RuleId::Md023 => seq!["MD023"@, "heading-start-left"@],
        RuleId::Md024 => seq!["MD024"@, "no-duplicate-heading"@],
        RuleId::Md025 => seq!["MD025"@, "single-title"@, "single-h1"@],
        RuleId::Md026 => seq!["MD026"@, "no-trailing-punctuation"@],
        RuleId::Md027 => seq!["MD027"@, "no-multiple-space-blockquote"@],
        RuleId::Md028 => seq!["MD028"@, "no-blanks-blockquote"@],
        RuleId::Md029 => seq!["MD029"@, "ol-prefix"@],
        RuleId::Md030 => seq!["MD030"@, "list-marker-space"@],
        RuleId::Md031 => seq!["MD031"@, "blanks-around-fences"@],
        RuleId::Md032 => seq!["MD032"@, "blanks-around-lists"@],
        RuleId::Md033 => seq!["MD033"@, "no-inline-html"@],
        RuleId::Md034 => seq!["MD034"@, "no-bare-urls"@],
        RuleId::Md035 => seq!["MD035"@, "hr-style"@],
        RuleId::Md036 => seq!["MD036"@, "no-emphasis-as-heading"@],
        RuleId::Md037 => seq!["MD037"@, "no-space-in-emphasis"@],
        RuleId::Md038 => seq!["MD038"@, "no-space-in-code"@],
        RuleId::Md039 => seq!["MD039"@, "no-space-in-links"@],
        RuleId::Md040 => seq!["MD040"@, "fenced-code-language"@],
        RuleId::Md041 => seq!["MD041"@, "first-line-heading"@, "first-line-h1"@],
        RuleId::Md042 => seq!["MD042"@, "no-empty-links"@],
        RuleId::Md043 => seq!["MD043"@, "required-headings"@],
        RuleId::Md044 => seq!["MD044"@, "proper-names"@],
        RuleId::Md045 => seq!["MD045"@, "no-alt-text"@],
        RuleId::Md046 => seq!["MD046"@, "code-block-style"@],
        RuleId::Md047 => seq!["MD047"@, "single-trailing-newline"@],
        RuleId::Md048 => seq!["MD048"@, "code-fence-style"@],
        RuleId::Md049 => seq!["MD049"@, "emphasis-style"@],
        RuleId::Md050 => seq!["MD050"@, "strong-style"@],
        RuleId::Md051 => seq!["MD051"@, "link-fragments"@],
        RuleId::Md052 => seq!["MD052"@, "reference-links-images"@],
        RuleId::Md053 => seq!["MD053"@, "link-image-reference-definitions"@],
        RuleId::Md054 => seq!["MD054"@, "link-image-style"@],
        RuleId::Md055 => seq!["MD055"@, "table-pipe-style"@],
        RuleId::Md056 => seq!["MD056"@, "table-column-count"@],
        RuleId::Md058 => seq!["MD058"@, "blanks-around-tables"@],
        RuleId::Md059 => seq!["MD059"@, "descriptive-link-text"@],
    }
}

/// The tags of a rule.
pub open spec fn spec_rule_tags(r: RuleId) -> Seq<Seq<char>> {
    match r {
        RuleId::Md001 => seq!["headings"@],
        RuleId::Md003 => seq!["headings"@],
        RuleId::Md004 => seq!["bullet"@, "ul"@],
        RuleId::Md005 => seq!["bullet"@, "ul"@, "indentation"@],
        RuleId::Md007 => seq!["bullet"@, "ul"@, "indentation"@],
        RuleId::Md009 => seq!["whitespace"@],
        RuleId::Md010 => seq!["whitespace"@, "hard_tab"@],
        RuleId::Md011 => seq!["links"@],
        RuleId::Md012 => seq!["whitespace"@, "blank_lines"@],
        RuleId::Md013 => seq!["line_length"@],
        RuleId::Md014 => seq!["code"@],
        RuleId::Md018 => seq!["headings"@, "atx"@, "spaces"@],
        RuleId::Md019 => seq!["headings"@, "atx"@, "spaces"@],
        RuleId::Md020 => seq!["headings"@, "atx_closed"@, "spaces"@],
        RuleId::Md021 => seq!["headings"@, "atx_closed"@, "spaces"@],
        RuleId::Md022 => seq!["headings"@, "blank_lines"@],
        RuleId::Md023 => seq!["headings"@, "spaces"@],
        RuleId::Md024 => seq!["headings"@],
        RuleId::Md025 => seq!["headings"@],
        RuleId::Md026 => seq!["headings"@],
        RuleId::Md027 => seq!["blockquote"@, "whitespace"@, "indentation"@],
        RuleId::Md028 => seq!["blockquote"@, "whitespace"@],
        RuleId::Md029 => seq!["ol"@],
        RuleId::Md030 => seq!["ol"@, "ul"@, "whitespace"@],
        RuleId::Md031 => seq!["code"@, "blank_lines"@],
        RuleId::Md032 => seq!["bullet"@, "ul"@, "ol"@, "blank_lines"@],
        RuleId::Md033 => seq!["html"@],
        RuleId::Md034 => seq!["links"@, "url"@],
        RuleId::Md035 => seq!["hr"@],
        RuleId::Md036 => seq!["headings"@, "emphasis"@],
        RuleId::Md037 => seq!["whitespace"@, "emphasis"@],
        RuleId::Md038 => seq!["whitespace"@, "code"@],
        RuleId::Md039 => seq!["whitespace"@, "links"@],
        RuleId::Md040 => seq!["code"@, "language"@],
        RuleId::Md041 => seq!["headings"@],
        RuleId::Md042 => seq!["links"@],
        RuleId::Md043 => seq!["headings"@],
        RuleId::Md044 => seq!["spelling"@],
        RuleId::Md045 => seq!["accessibility"@, "images"@],
        RuleId::Md046 => seq!["code"@],
        RuleId::Md047 => seq!["blank_lines"@],
        RuleId::Md048 => seq!["code"@],
        RuleId::Md049 => seq!["emphasis"@],
        RuleId::Md050 => seq!["emphasis"@],
        RuleId::Md051 => seq!["links"@],
        RuleId::Md052 => seq!["images"@, "links"@],
        RuleId::Md053 => seq!["images"@, "links"@],
        RuleId::Md054 => seq!["images"@, "links"@],
        RuleId::Md055 => seq!["table"@],
        RuleId::Md056 => seq!["table"@],
        RuleId::Md058 => seq!["table"@],
        RuleId::Md059 => seq!["accessibility"@, "links"@],
    }
}

/// The rules, in the order of `all_rules`.
pub open spec fn spec_all_rules() -> Seq<RuleId> {
    seq![
        RuleId::Md001, RuleId::Md003, RuleId::Md004, RuleId::Md005, RuleId::Md007, RuleId::Md009, RuleId::Md010, RuleId::Md011, RuleId::Md012, RuleId::Md013, RuleId::Md014, RuleId::Md018, RuleId::Md019, RuleId::Md020, RuleId::Md021, RuleId::Md022, RuleId::Md023, RuleId::Md024, RuleId::Md025, RuleId::Md026, RuleId::Md027, RuleId::Md028, RuleId::Md029, RuleId::Md030, RuleId::Md031, RuleId::Md032, RuleId::Md033, RuleId::Md034, RuleId::Md035, RuleId::Md036, RuleId::Md037, RuleId::Md038, RuleId::Md039, RuleId::Md040, RuleId::Md041, RuleId::Md042, RuleId::Md043, RuleId::Md044, RuleId::Md045, RuleId::Md046, RuleId::Md047, RuleId::Md048, RuleId::Md049, RuleId::Md050, RuleId::Md051, RuleId::Md052, RuleId::Md053, RuleId::Md054, RuleId::Md055, RuleId::Md056, RuleId::Md058, RuleId::Md059,
    ]
}

/// All rules, in order of their primary names.
#[verifier::rlimit(60)]
pub fn all_rules() -> (r: Vec<RuleId>)
    ensures
        r@.len() == rule_count(),
        r@ == spec_all_rules(),
{
    let mut r: Vec<RuleId> = Vec::new();
    r.push(RuleId::Md001);
    r.push(RuleId::Md003);
    r.push(RuleId::Md004);
    r.push(RuleId::Md005);
    r.push(RuleId::Md007);
    r.push(RuleId::Md009);
    r.push(RuleId::Md010);
    r.push(RuleId::Md011);
    r.push(RuleId::Md012);
    r.push(RuleId::Md013);
    r.push(RuleId::Md014);
    r.push(RuleId::Md018);
    r.push(RuleId::Md019);
    r.push(RuleId::Md020);
    r.push(RuleId::Md021);
    r.push(RuleId::Md022);
    r.push(RuleId::Md023);
    r.push(RuleId::Md024);
    r.push(RuleId::Md025);
    r.push(RuleId::Md026);
    r.push(RuleId::Md027);
    r.push(RuleId::Md028);
    r.push(RuleId::Md029);
    r.push(RuleId::Md030);
    r.push(RuleId::Md031);
    r.push(RuleId::Md032);
    r.push(RuleId::Md033);
    r.push(RuleId::Md034);
    r.push(RuleId::Md035);
    r.push(RuleId::Md036);
    r.push(RuleId::Md037);
    r.push(RuleId::Md038);
    r.push(RuleId::Md039);
    r.push(RuleId::Md040);
    r.push(RuleId::Md041);
    r.push(RuleId::Md042);
    r.push(RuleId::Md043);
    r.push(RuleId::Md044);
    r.push(RuleId::Md045);
    r.push(RuleId::Md046);
    r.push(RuleId::Md047);
    r.push(RuleId::Md048);
    r.push(RuleId::Md049);
    r.push(RuleId::Md050);
    r.push(RuleId::Md051);
    r.push(RuleId::Md052);
    r.push(RuleId::Md053);
    r.push(RuleId::Md054);
    r.push(RuleId::Md055);
    r.push(RuleId::Md056);
    r.push(RuleId::Md058);
    r.push(RuleId::Md059);
    proof {
        assert(r@ =~= spec_all_rules());
    }
    r
}

impl RuleId {
    /// The rule's names: its id (`MDnnn`) first, then its aliases.
    pub fn names(&self) -> (r: Vec<&'static str>)
        ensures
            r@.len() >= 1,
            r@.map_values(|x: &'static str| x@) == spec_rule_names(*self),
    {
        match self {
            RuleId::Md001 => vec!["MD001", "heading-increment"],
            RuleId::Md003 => vec!["MD003", "heading-style"],
            RuleId::Md004 => vec!["MD004", "ul-style"],
            RuleId::Md005 => vec!["MD005", "list-indent"],
            RuleId::Md007 => vec!["MD007", "ul-indent"],
            RuleId::Md009 => vec!["MD009", "no-trailing-spaces"],
            RuleId::Md010 => vec!["MD010", "no-hard-tabs"],
            RuleId::Md011 => vec!["MD011", "no-reversed-links"],
            RuleId::Md012 => vec!["MD012", "no-multiple-blanks"],
            RuleId::Md013 => vec!["MD013", "line-length"],
            RuleId::Md014 => vec!["MD014", "commands-show-output"],
            RuleId::Md018 => vec!["MD018", "no-missing-space-atx"],
            RuleId::Md019 => vec!["MD019", "no-multiple-space-atx"],
            RuleId::Md020 => vec!["MD020", "no-missing-space-closed-atx"],
            RuleId::Md021 => vec!["MD021", "no-multiple-space-closed-atx"],
            RuleId::Md022 => vec!["MD022", "blanks-around-headings"],
            RuleId::Md023 => vec!["MD023", "heading-start-left"],
            RuleId::Md024 => vec!["MD024", "no-duplicate-heading"],
            RuleId::Md025 => vec!["MD025", "single-title", "single-h1"],
            RuleId::Md026 => vec!["MD026", "no-trailing-punctuation"],
            RuleId::Md027 => vec!["MD027", "no-multiple-space-blockquote"],
            RuleId::Md028 => vec!["MD028", "no-blanks-blockquote"],
            RuleId::Md029 => vec!["MD029", "ol-prefix"],
            RuleId::Md030 => vec!["MD030", "list-marker-space"],
            RuleId::Md031 => vec!["MD031", "blanks-around-fences"],
            RuleId::Md032 => vec!["MD032", "blanks-around-lists"],
            RuleId::Md033 => vec!["MD033", "no-inline-html"],
            RuleId::Md034 => vec!["MD034", "no-bare-urls"],
            RuleId::Md035 => vec!["MD035", "hr-style"],
            RuleId::Md036 => vec!["MD036", "no-emphasis-as-heading"],
            RuleId::Md037 => vec!["MD037", "no-space-in-emphasis"],
            RuleId::Md038 => vec!["MD038", "no-space-in-code"],
            RuleId::Md039 => vec!["MD039", "no-space-in-links"],
            RuleId::Md040 => vec!["MD040", "fenced-code-language"],
            RuleId::Md041 => vec!["MD041", "first-line-heading", "first-line-h1"],
            RuleId::Md042 => vec!["MD042", "no-empty-links"],
            RuleId::Md043 => vec!["MD043", "required-headings"],
            RuleId::Md044 => vec!["MD044", "proper-names"],
            RuleId::Md045 => vec!["MD045", "no-alt-text"],
            RuleId::Md046 => vec!["MD046", "code-block-style"],
            RuleId::Md047 => vec!["MD047", "single-trailing-newline"],
            RuleId::Md048 => vec!["MD048", "code-fence-style"],
            RuleId::Md049 => vec!["MD049", "emphasis-style"],
            RuleId::Md050 => vec!["MD050", "strong-style"],
            RuleId::Md051 => vec!["MD051", "link-fragments"],
            RuleId::Md052 => vec!["MD052", "reference-links-images"],
            RuleId::Md053 => vec!["MD053", "link-image-reference-definitions"],
            RuleId::Md054 => vec!["MD054", "link-image-style"],
            RuleId::Md055 => vec!["MD055", "table-pipe-style"],
            RuleId::Md056 => vec!["MD056", "table-column-count"],
            RuleId::Md058 => vec!["MD058", "blanks-around-tables"],
            RuleId::Md059 => vec!["MD059", "descriptive-link-text"],
        }
    }

    /// What the rule checks.
    pub fn description(&self) -> (r: &'static str)
        ensures
            r@ == spec_rule_description(*self),
    {
        match self {
            RuleId::Md001 => "Heading levels should only increment by one level at a time",
            RuleId::Md003 => "Heading style",
            RuleId::Md004 => "Unordered list style",
            RuleId::Md005 => "Inconsistent indentation for list items at the same level",
            RuleId::Md007 => "Unordered list indentation",
            RuleId::Md009 => "Trailing spaces",
            RuleId::Md010 => "Hard tabs",
            RuleId::Md011 => "Reversed link syntax",
            RuleId::Md012 => "Multiple consecutive blank lines",
            RuleId::Md013 => "Line length",
            RuleId::Md014 => "Dollar signs used before commands without showing output",
            RuleId::Md018 => "No space after hash on atx style heading",
            RuleId::Md019 => "Multiple spaces after hash on atx style heading",
            RuleId::Md020 => "No space inside hashes on closed atx style heading",
            RuleId::Md021 => "Multiple spaces inside hashes on closed atx style heading",
            RuleId::Md022 => "Headings should be surrounded by blank lines",
            RuleId::Md023 => "Headings must start at the beginning of the line",
            RuleId::Md024 => "Multiple headings with the same content",
            RuleId::Md025 => "Multiple top-level headings in the same document",
            RuleId::Md026 => "Trailing punctuation in heading",
            RuleId::Md027 => "Multiple spaces after blockquote symbol",
            RuleId::Md028 => "Blank line inside blockquote",
            RuleId::Md029 => "Ordered list item prefix",
            RuleId::Md030 => "Spaces after list markers",
            RuleId::Md031 => "Fenced code blocks should be surrounded by blank lines",
            RuleId::Md032 => "Lists should be surrounded by blank lines",
            RuleId::Md033 => "Inline HTML",
            RuleId::Md034 => "Bare URL used",
            RuleId::Md035 => "Horizontal rule style",
            RuleId::Md036 => "Emphasis used instead of a heading",
            RuleId::Md037 => "Spaces inside emphasis markers",
            RuleId::Md038 => "Spaces inside code span elements",
            RuleId::Md039 => "Spaces inside link text",
            RuleId::Md040 => "Fenced code blocks should have a language specified",
            RuleId::Md041 => "First line in a file should be a top-level heading",
            RuleId::Md042 => "No empty links",
            RuleId::Md043 => "Required heading structure",
            RuleId::Md044 => "Proper names should have the correct capitalization",
            RuleId::Md045 => "Images should have alternate text (alt text)",
            RuleId::Md046 => "Code block style",
            RuleId::Md047 => "Files should end with a single newline character",
            RuleId::Md048 => "Code fence style",
            RuleId::Md049 => "Emphasis style",
            RuleId::Md050 => "Strong style",
            RuleId::Md051 => "Link fragments should be valid",
            RuleId::Md052 => "Reference links and images should use a label that is defined",
            RuleId::Md053 => "Link and image reference definitions should be needed",
            RuleId::Md054 => "Link and image style",
            RuleId::Md055 => "Table pipe style",
            RuleId::Md056 => "Table column count",
            RuleId::Md058 => "Tables should be surrounded by blank lines",
            RuleId::Md059 => "Link text should be descriptive",
        }
    }

    /// The tags that group rules in the configuration.
    pub fn tags(&self) -> (r: Vec<&'static str>)
        ensures
            r@.map_values(|x: &'static str| x@) == spec_rule_tags(*self),
    {
        match self {
            RuleId::Md001 => vec!["headings"],
            RuleId::Md003 => vec!["headings"],
            RuleId::Md004 => vec!["bullet", "ul"],
            RuleId::Md005 => vec!["bullet", "ul", "indentation"],
            RuleId::Md007 => vec!["bullet", "ul", "indentation"],
            RuleId::Md009 => vec!["whitespace"],
            RuleId::Md010 => vec!["whitespace", "hard_tab"],
            RuleId::Md011 => vec!["links"],
            RuleId::Md012 => vec!["whitespace", "blank_lines"],
            RuleId::Md013 => vec!["line_length"],
            RuleId::Md014 => vec!["code"],
            RuleId::Md018 => vec!["headings", "atx", "spaces"],
            RuleId::Md019 => vec!["headings", "atx", "spaces"],
            RuleId::Md020 => vec!["headings", "atx_closed", "spaces"],
            RuleId::Md021 => vec!["headings", "atx_closed", "spaces"],
            RuleId::Md022 => vec!["headings", "blank_lines"],
            RuleId::Md023 => vec!["headings", "spaces"],
            RuleId::Md024 => vec!["headings"],
            RuleId::Md025 => vec!["headings"],
            RuleId::Md026 => vec!["headings"],
            RuleId::Md027 => vec!["blockquote", "whitespace", "indentation"],
            RuleId::Md028 => vec!["blockquote", "whitespace"],
            RuleId::Md029 => vec!["ol"],
            RuleId::Md030 => vec!["ol", "ul", "whitespace"],
            RuleId::Md031 => vec!["code", "blank_lines"],
            RuleId::Md032 => vec!["bullet", "ul", "ol", "blank_lines"],
            RuleId::Md033 => vec!["html"],
            RuleId::Md034 => vec!["links", "url"],
            RuleId::Md035 => vec!["hr"],
            RuleId::Md036 => vec!["headings", "emphasis"],
            RuleId::Md037 => vec!["whitespace", "emphasis"],
            RuleId::Md038 => vec!["whitespace", "code"],
            RuleId::Md039 => vec!["whitespace", "links"],
            RuleId::Md040 => vec!["code", "language"],
            RuleId::Md041 => vec!["headings"],
            RuleId::Md042 => vec!["links"],
            RuleId::Md043 => vec!["headings"],
            RuleId::Md044 => vec!["spelling"],
            RuleId::Md045 => vec!["accessibility", "images"],
            RuleId::Md046 => vec!["code"],
            RuleId::Md047 => vec!["blank_lines"],
            RuleId::Md048 => vec!["code"],
            RuleId::Md049 => vec!["emphasis"],
            RuleId::Md050 => vec!["emphasis"],
            RuleId::Md051 => vec!["links"],
            RuleId::Md052 => vec!["images", "links"],
            RuleId::Md053 => vec!["images", "links"],
            RuleId::Md054 => vec!["images", "links"],
            RuleId::Md055 => vec!["table"],
            RuleId::Md056 => vec!["table"],
            RuleId::Md058 => vec!["table"],
            RuleId::Md059 => vec!["accessibility", "links"],
        }
    }

    /// Whether the rule reads the token tree (a document is parsed only when
    /// an enabled rule does).
    pub fn uses_tree(&self) -> (r: bool)
        ensures
            r == !(*self is Md047 || *self is Md052 || *self is Md053),
    {
        match self {
            RuleId::Md047 => false,
            RuleId::Md052 => false,
            RuleId::Md053 => false,
            _ => true,
        }
    }
    /// Check the rule on a document, reporting into `emit`.
    pub fn run(&self, p: &Params, emit: &mut Emit)
        requires
            params_ok(p),
        ensures
            appended(old(emit).errors@, final(emit).errors@, p.lines@.len() as int),
            rule_reported(*self, p, old(emit).errors@, final(emit).errors@),
    {
        match self {
            RuleId::Md001 => super::md001::md001(p, emit),
            RuleId::Md003 => super::md003::md003(p, emit),
            RuleId::Md004 => super::md004::md004(p, emit),
            RuleId::Md005 => super::md005::md005(p, emit),
            RuleId::Md007 => super::md007::md007(p, emit),
            RuleId::Md009 => super::md009::md009(p, emit),
            RuleId::Md010 => super::md010::md010(p, emit),
            RuleId::Md011 => super::md011::md011(p, emit),
            RuleId::Md012 => super::md012::md012(p, emit),
            RuleId::Md013 => super::md013::md013(p, emit),
            RuleId::Md014 => super::md014::md014(p, emit),
            RuleId::Md018 => super::md018::md018(p, emit),
            RuleId::Md019 => super::md019::md019(p, emit),
            RuleId::Md021 => super::md019::md021(p, emit),
            RuleId::Md020 => super::md020::md020(p, emit),
            RuleId::Md022 => super::md022::md022(p, emit),
            RuleId::Md023 => super::md023::md023(p, emit),
            RuleId::Md024 => super::md024::md024(p, emit),
            RuleId::Md025 => super::md025::md025(p, emit),
            RuleId::Md026 => super::md026::md026(p, emit),
            RuleId::Md027 => super::md027::md027(p, emit),
            RuleId::Md028 => super::md028::md028(p, emit),
            RuleId::Md029 => super::md029::md029(p, emit),
            RuleId::Md030 => super::md030::md030(p, emit),
            RuleId::Md031 => super::md031::md031(p, emit),
            RuleId::Md032 => super::md032::md032(p, emit),
            RuleId::Md033 => super::md033::md033(p, emit),
            RuleId::Md034 => super::md034::md034(p, emit),
            RuleId::Md035 => super::md035::md035(p, emit),
            RuleId::Md036 => super::md036::md036(p, emit),
            RuleId::Md037 => super::md037::md037(p, emit),
            RuleId::Md038 => super::md038::md038(p, emit),
            RuleId::Md039 => super::md039::md039(p, emit),
            RuleId::Md040 => super::md040::md040(p, emit),
            RuleId::Md041 => super::md041::md041(p, emit),
            RuleId::Md042 => super::md042::md042(p, emit),
            RuleId::Md043 => super::md043::md043(p, emit),
            RuleId::Md044 => super::md044::md044(p, emit),
            RuleId::Md045 => super::md045::md045(p, emit),
            RuleId::Md046 => super::md046::md046(p, emit),
            RuleId::Md047 => super::md047::md047(p, emit),
            RuleId::Md048 => super::md048::md048(p, emit),
            RuleId::Md049 => super::md049::md049(p, emit),
            RuleId::Md050 => super::md049::md050(p, emit),
            RuleId::Md051 => super::md051::md051(p, emit),
            RuleId::Md055 => super::md055::md055(p, emit),
            RuleId::Md056 => super::md056::md056(p, emit),
            RuleId::Md058 => super::md058::md058(p, emit),
            RuleId::Md059 => super::md059::md059(p, emit),
            // MD052, MD053, MD054 have no check in this library: they report
            // nothing.
            _ => {
                proof {
                    super::lemma_appended_refl(emit.errors@, p.lines@.len() as int);
                }
            },
        }
    }
}

} // verus!
