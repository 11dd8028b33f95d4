//! The scanner's configuration, checked and parsed from the settings of a
//! configuration document.

use vstd::prelude::*;

use crate::error::ConfigError;
use crate::file_exclude::{directive_error, directive_ok, rule_from, FileExclude};

verus! {

/// One setting of a configuration document, as found there.
#[derive(Debug)]
pub enum Setting {
    /// The key is not in the document.
    Absent,
    /// A single string.
    Text(String),
    /// A list whose items are all strings.
    List(Vec<String>),
    /// Any other value.
    Other,
}

/// What a scan needs: the tree to walk, where the baseline lives, where
/// reports go, the exclusion rules in order, and whether to rewrite the
/// baseline instead of reporting against it.
#[derive(Debug)]
pub struct Configuration {
    pub update: bool,
    pub root_dir: String,
    /// The baseline database file, from the `data_dir` setting.
    pub data_file: String,
    pub report_dir: String,
    pub excludes: Vec<FileExclude>,
}

/// `e` is the error for a setting that must be a single string.
pub open spec fn text_error(s: Setting, name: Seq<char>, e: ConfigError) -> bool {
    match s {
        Setting::Absent => e matches ConfigError::MissingField(n) && n@ == name,
        _ => e matches ConfigError::NotText(n) && n@ == name,
    }
}

/// Every directive is well formed, and `rules` are the rules they describe, in order.
pub open spec fn rules_from(rules: Seq<FileExclude>, directives: Seq<String>) -> bool {
    &&& rules.len() == directives.len()
    &&& forall|i: int| 0 <= i < directives.len() ==> rule_from(#[trigger] rules[i], directives[i]@)
}

/// `e` is the error of the first malformed directive.
pub open spec fn first_directive_error(directives: Seq<String>, e: ConfigError) -> bool {
    exists|k: int|
        0 <= k < directives.len() && !directive_ok(#[trigger] directives[k]@) && directive_error(
            directives[k]@,
            e,
        ) && forall|j: int| 0 <= j < k ==> directive_ok(#[trigger] directives[j]@)
}

fn required_text(s: Setting, name: &str) -> (r: Result<String, ConfigError>)
    ensures
        s matches Setting::Text(t) ==> r matches Ok(v) && v == t,
        !(s is Text) ==> (r matches Err(e) && text_error(s, name@, e)),
{
    match s {
        Setting::Text(t) => Ok(t),
        Setting::Absent => Err(ConfigError::MissingField(name.to_owned())),
        _ => Err(ConfigError::NotText(name.to_owned())),
    }
}

/// Parses each directive in order; the first malformed one is the error.
pub fn parse_excludes(directives: Vec<String>) -> (r: Result<Vec<FileExclude>, ConfigError>)
    ensures
        r is Ok <==> forall|i: int| 0 <= i < directives@.len() ==> directive_ok(#[trigger] directives@[i]@),
        r is Ok ==> rules_from(r->Ok_0@, directives@),
        r is Err ==> first_directive_error(directives@, r->Err_0),
{
    let mut rules: Vec<FileExclude> = Vec::new();
    let mut i: usize = 0;
    while i < directives.len()
        invariant
            i <= directives@.len(),
            rules@.len() == i,
            forall|j: int| 0 <= j < i ==> directive_ok(#[trigger] directives@[j]@),
            forall|j: int| 0 <= j < i ==> rule_from(#[trigger] rules@[j], directives@[j]@),
        decreases directives@.len() - i,
    {
        match FileExclude::new(directives[i].clone()) {
            Ok(rule) => {
                rules.push(rule);
            },
            Err(e) => {
                assert(!directive_ok(directives@[i as int]@));
                return Err(e);
            },
        }
        i = i + 1;
    }
    Ok(rules)
}

impl Configuration {
    /// Checks the settings of a configuration document: `root_dir`,
    /// `data_dir` (the baseline file) and `report_dir` must be strings and
    /// `exclude` a list of directives; the first setting that fails, in that
    /// order, is the error.
    pub fn from_settings(
        update: bool,
        root_dir: Setting,
        data_dir: Setting,
        report_dir: Setting,
        exclude: Setting,
    ) -> (r: Result<Configuration, ConfigError>)
        ensures
            !(root_dir is Text) ==> (r matches Err(e) && text_error(root_dir, "root_dir"@, e)),
            root_dir is Text && !(data_dir is Text) ==> (r matches Err(e) && text_error(
                data_dir,
                "data_dir"@,
                e,
            )),
            root_dir is Text && data_dir is Text && !(report_dir is Text) ==> (r matches Err(e)
                && text_error(report_dir, "report_dir"@, e)),
            root_dir is Text && data_dir is Text && report_dir is Text && exclude is Absent ==> (
            r matches Err(e) && e matches ConfigError::MissingField(n) && n@ == "exclude"@),
            root_dir is Text && data_dir is Text && report_dir is Text && (exclude is Text
                || exclude is Other) ==> (r matches Err(e) && e matches ConfigError::NotList(n)
                && n@ == "exclude"@),
            root_dir is Text && data_dir is Text && report_dir is Text && exclude is List ==> ({
                let directives = exclude->List_0@;
                &&& r is Ok <==> forall|i: int|
                    0 <= i < directives.len() ==> directive_ok(#[trigger] directives[i]@)
                &&& r is Ok ==> ({
                    let c = r->Ok_0;
                    &&& c.update == update
                    &&& c.root_dir == root_dir->Text_0
                    &&& c.data_file == data_dir->Text_0
                    &&& c.report_dir == report_dir->Text_0
                    &&& rules_from(c.excludes@, directives)
                })
                &&& r is Err ==> first_directive_error(directives, r->Err_0)
            }),
    {
        let root_dir = required_text(root_dir, "root_dir")?;
        let data_file = required_text(data_dir, "data_dir")?;
        let report_dir = required_text(report_dir, "report_dir")?;
        let directives = match exclude {
            Setting::List(v) => v,
            Setting::Absent => {
                return Err(ConfigError::MissingField("exclude".to_owned()));
            },
            _ => {
                return Err(ConfigError::NotList("exclude".to_owned()));
            },
        };
        let excludes = parse_excludes(directives)?;
        Ok(Configuration { update, root_dir, data_file, report_dir, excludes })
    }

    /// The directory tree to scan.
    pub fn root_dir(&self) -> (r: &String)
        ensures
            r == &self.root_dir,
    {
        &self.root_dir
    }
}

} // verus!
