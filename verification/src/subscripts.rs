//! Subscripts: the scripts that a script runs or reads.
//!
//! This module finds them, resolves their names and writes the reports;
//! [`crate::freezer`] walks the whole tree and rewrites it.

use vstd::prelude::*;
use vstd::string::*;
use vstd::utf8::*;

use crate::rewrite::Outcome;
use crate::sites;
use crate::sites::{Category, Site, SiteModel};
use crate::text;

verus! {

/// Whether scripts can be analysed: the shell parser is always there.
pub fn enabled() -> (r: bool)
    ensures
        r,
{
    true
}

// ---------------------------------------------------------------------------
// Analysis

/// What a script is found to be.
#[derive(Debug, PartialEq, Eq)]
pub enum Analysis {
    /// It is not UTF-8.
    NotText,
    /// The parser refuses it, with this message.
    Unparsable(String),
    /// Its characters, and its sites in order.
    Found(Vec<char>, Vec<Site>),
}

/// The model of an analysis.
pub enum AnalysisModel {
    /// It is not UTF-8.
    NotText,
    /// The parser refuses it.
    Unparsable(Seq<char>),
    /// Its characters and its sites.
    Found(Seq<char>, Seq<SiteModel>),
}

impl View for Analysis {
    type V = AnalysisModel;

    open spec fn view(&self) -> AnalysisModel {
        match self {
            Analysis::NotText => AnalysisModel::NotText,
            Analysis::Unparsable(e) => AnalysisModel::Unparsable(e@),
            Analysis::Found(t, s) => AnalysisModel::Found(t@, sites::views(s@)),
        }
    }
}

/// What the script `bytes` is found to be.
pub open spec fn analysed(bytes: Seq<u8>) -> AnalysisModel {
    if !valid_utf8(bytes) {
        AnalysisModel::NotText
    } else {
        match sites::sites_in(decode_utf8(bytes)) {
            Ok(s) => AnalysisModel::Found(decode_utf8(bytes), s),
            Err(e) => AnalysisModel::Unparsable(e),
        }
    }
}

/// What the script `bytes` is found to be.
pub fn analyse(bytes: &[u8]) -> (r: Analysis)
    ensures
        r@ == analysed(bytes@),
{
    let chars = match text::decode(bytes) {
        Some(chars) => chars,
        None => {
            return Analysis::NotText;
        },
    };
    let src = text::string_of(&chars);
    match sites::parse_sites(src.as_str()) {
        Ok(found) => Analysis::Found(chars, found),
        Err(e) => Analysis::Unparsable(e),
    }
}

// ---------------------------------------------------------------------------
// Names and files

/// The one file that two places agree on: what a name stands for from the
/// directory of the script and from the current directory, where there is such
/// a file.
pub open spec fn agreed(a: Option<Seq<u8>>, b: Option<Seq<u8>>) -> Option<Seq<u8>> {
    match (a, b) {
        (Some(x), Some(y)) => if x == y {
            Some(x)
        } else {
            None
        },
        (Some(x), None) => Some(x),
        (None, b) => b,
    }
}

/// The path in bytes, where there is one.
pub open spec fn path_view(p: Option<Vec<u8>>) -> Option<Seq<u8>> {
    match p {
        Some(p) => Some(p@),
        None => None,
    }
}

/// Whether a name is an absolute path.
pub fn is_absolute(literal: &str) -> (r: bool)
    ensures
        r == "/"@.is_prefix_of(literal@),
{
    let chars = text::chars_of(literal);
    text::starts_with(&chars, "/")
}

/// The file that a literal name stands for. `direct` is the file at an absolute
/// name, `beside` and `here` are those found from the directory of the script
/// and from the current directory. A shell would look from the directory that is
/// current when it runs, which is not known; so a relative name stands for a file
/// only if the places agree on exactly one.
pub fn resolve(
    literal: &str,
    direct: Option<Vec<u8>>,
    beside: Option<Vec<u8>>,
    here: Option<Vec<u8>>,
) -> (r: Option<Vec<u8>>)
    ensures
        path_view(r) == if "/"@.is_prefix_of(literal@) {
            path_view(direct)
        } else {
            agreed(path_view(beside), path_view(here))
        },
{
    if is_absolute(literal) {
        return direct;
    }
    match (beside, here) {
        (Some(a), Some(b)) => if same_bytes(&a, &b) {
            Some(a)
        } else {
            None
        },
        (Some(a), None) => Some(a),
        (None, b) => b,
    }
}

/// Whether two byte strings are the same.
pub fn same_bytes(a: &[u8], b: &[u8]) -> (r: bool)
    ensures
        r == (a@ == b@),
{
    if a.len() != b.len() {
        return false;
    }
    let mut i: usize = 0;
    while i < a.len()
        invariant
            i <= a@.len(),
            a@.len() == b@.len(),
            forall|k: int| 0 <= k < i ==> a@[k] == b@[k],
        decreases a@.len() - i,
    {
        if a[i] != b[i] {
            return false;
        }
        i = i + 1;
    }
    assert(a@ =~= b@);
    true
}

/// A relative name is resolved exactly if there is a file, and only one, that it
/// stands for: never to one of two.
pub proof fn law_only_unambiguous_names_resolve(
    a: Option<Seq<u8>>,
    b: Option<Seq<u8>>,
    p: Seq<u8>,
)
    ensures
        agreed(a, b) == Some(p) <==> (a is Some || b is Some) && (a is Some ==> a == Some(p)) && (
        b is Some ==> b == Some(p)),
{
}

// ---------------------------------------------------------------------------
// The children of a script

/// A script that a script runs or reads.
#[derive(Debug, PartialEq, Eq)]
pub enum Child {
    /// The path of the file.
    Resolved(Vec<u8>),
    /// Why no file can be named, or need be.
    Note(String),
}

/// The model of a child.
pub enum ChildModel {
    /// The path of the file.
    Resolved(Seq<u8>),
    /// Why no file can be named, or need be.
    Note(Seq<char>),
}

impl View for Child {
    type V = ChildModel;

    open spec fn view(&self) -> ChildModel {
        match self {
            Child::Resolved(p) => ChildModel::Resolved(p@),
            Child::Note(s) => ChildModel::Note(s@),
        }
    }
}

/// The views of children.
pub open spec fn child_views(v: Seq<Child>) -> Seq<ChildModel> {
    v.map_values(|c: Child| c@)
}

/// Whether the file of a site is looked for: its name is a literal, and its
/// interpreter is a shell.
pub open spec fn followed(site: SiteModel) -> bool {
    site.resolvable && site.category != Category::OtherChild
}

/// Whether the file of a site is looked for.
pub fn is_followed(site: &Site) -> (r: bool)
    ensures
        r == followed(site@),
{
    site.resolvable && site.category != Category::OtherChild
}

/// The note on a site for which no file is named.
pub open spec fn note_on(site: SiteModel) -> Seq<char> {
    "line "@ + text::decimal(site.line as nat) + ": "@ + site.label + " "@ + site.target + " - "@
        + if site.category == Category::OtherChild {
        "immune interpreter"@
    } else {
        "dynamic / unresolvable path"@
    }
}

/// The child of a site; `found` is the file that its name stands for, if it was
/// looked for and found.
pub open spec fn child_of(site: SiteModel, found: Option<Seq<u8>>) -> ChildModel {
    match found {
        Some(p) if followed(site) => ChildModel::Resolved(p),
        _ => ChildModel::Note(note_on(site)),
    }
}

/// The child of a site.
fn read_child(site: &Site, found: &Option<Vec<u8>>) -> (r: Child)
    ensures
        r@ == child_of(site@, path_view(*found)),
{
    if is_followed(site) {
        if let Some(p) = found {
            return Child::Resolved(vstd::slice::slice_to_vec(p));
        }
    }
    let mut out = "line ".to_owned();
    let line = text::decimal_of(site.line as u128);
    out.append(line.as_str());
    out.append(": ");
    out.append(site.label);
    out.append(" ");
    out.append(site.target.as_str());
    out.append(" - ");
    if site.category == Category::OtherChild {
        out.append("immune interpreter");
    } else {
        out.append("dynamic / unresolvable path");
    }
    Child::Note(out)
}

/// The sites of the script `bytes` in order; none where it is not UTF-8 or
/// cannot be parsed.
pub open spec fn sites_of(bytes: Seq<u8>) -> Seq<SiteModel> {
    match analysed(bytes) {
        AnalysisModel::Found(_, s) => s,
        _ => seq![],
    }
}

/// The sites of the script `bytes` in order; none where it is not UTF-8 or
/// cannot be parsed.
pub fn child_sites(bytes: &[u8]) -> (r: Vec<Site>)
    ensures
        sites::views(r@) == sites_of(bytes@),
{
    match analyse(bytes) {
        Analysis::Found(_, found) => found,
        _ => {
            let none: Vec<Site> = Vec::new();
            assert(sites::views(none@) =~= seq![]);
            none
        },
    }
}

/// The children of a script, in the order of its sites: the files that were
/// found, and notes on the other sites.
pub fn child_scripts(sites: &Vec<Site>, found: &Vec<Option<Vec<u8>>>) -> (r: Vec<Child>)
    requires
        sites@.len() == found@.len(),
    ensures
        child_views(r@) == Seq::new(
            sites@.len(),
            |i: int| child_of(sites@[i]@, path_view(found@[i])),
        ),
{
    let mut out: Vec<Child> = Vec::new();
    let mut i: usize = 0;
    while i < sites.len()
        invariant
            i <= sites@.len(),
            sites@.len() == found@.len(),
            out@.len() == i,
            forall|k: int|
                0 <= k < i ==> (#[trigger] out@[k])@ == child_of(
                    sites@[k]@,
                    path_view(found@[k]),
                ),
        decreases sites@.len() - i,
    {
        out.push(read_child(&sites[i], &found[i]));
        i = i + 1;
    }
    assert(child_views(out@) =~= Seq::new(
        sites@.len(),
        |i: int| child_of(sites@[i]@, path_view(found@[i])),
    ));
    out
}

// ---------------------------------------------------------------------------
// Reports

/// The line of a report on a site.
pub open spec fn site_line(site: SiteModel, status: Seq<char>) -> Seq<char> {
    "  ["@ + text::padded(site.label, 6) + "] line "@ + text::padded(
        text::decimal(site.line as nat),
        4,
    ) + " "@ + site.target + "  ("@ + status + ")"@
}

/// Append a line of a report on a site.
fn push_site_line(out: &mut String, site: &Site, status: &str)
    ensures
        final(out)@ == old(out)@ + seq!['\n'] + site_line(site@, status@),
{
    let ghost before = out@;
    out.push('\n');
    out.append("  [");
    let label = text::pad(site.label, 6);
    out.append(label.as_str());
    out.append("] line ");
    let number = text::decimal_of(site.line as u128);
    let line = text::pad(number.as_str(), 4);
    out.append(line.as_str());
    out.append(" ");
    out.append(site.target.as_str());
    out.append("  (");
    out.append(status);
    out.append(")");
    assert(out@ =~= before + seq!['\n'] + site_line(site@, status@));
}

/// The lines of a report, each after a line feed, the `i`-th with the status
/// `status(i)`.
pub open spec fn site_lines(sites: Seq<SiteModel>, status: spec_fn(int) -> Seq<char>) -> Seq<char>
    decreases sites.len(),
{
    if sites.len() == 0 {
        seq![]
    } else {
        site_lines(sites.drop_last(), status) + seq!['\n'] + site_line(
            sites.last(),
            status(sites.len() - 1),
        )
    }
}

/// The status of a site in a report of what was found.
pub open spec fn found_status(site: SiteModel) -> Seq<char> {
    if site.resolvable {
        "resolvable"@
    } else {
        "dynamic"@
    }
}

/// The report of what was found in the script at `path`.
pub open spec fn detection(path: Seq<u8>, sites: Seq<SiteModel>) -> Seq<char> {
    "scriptbox: subscripts in "@ + text::utf8_lossy(path) + " (detection only):"@ + site_lines(
        sites,
        |i: int| found_status(sites[i]),
    )
}

/// The report of what was found in the script at `path`.
pub fn report_detection(path: &[u8], sites: &Vec<Site>) -> (r: String)
    ensures
        r@ == detection(path@, sites::views(sites@)),
{
    let ghost all = sites::views(sites@);
    let ghost status = |i: int| found_status(all[i]);
    let mut out = "scriptbox: subscripts in ".to_owned();
    let name = text::from_utf8_lossy(path);
    out.append(name.as_str());
    out.append(" (detection only):");
    let ghost head = out@;
    let mut i: usize = 0;
    assert(out@ =~= head + site_lines(all.take(0), status));
    while i < sites.len()
        invariant
            i <= sites@.len(),
            all == sites::views(sites@),
            status == (|i: int| found_status(all[i])),
            out@ == head + site_lines(all.take(i as int), status),
        decreases sites@.len() - i,
    {
        assert(all.take(i + 1).drop_last() =~= all.take(i as int));
        assert(all.take(i + 1).last() == sites@[i as int]@);
        if sites[i].resolvable {
            push_site_line(&mut out, &sites[i], "resolvable");
        } else {
            push_site_line(&mut out, &sites[i], "dynamic");
        }
        i = i + 1;
        assert(out@ =~= head + site_lines(all.take(i as int), status));
    }
    assert(all.take(i as int) =~= all);
    out
}

/// The report of what was done about the sites of the script at `path`.
pub open spec fn outcome_report(
    path: Seq<u8>,
    sites: Seq<SiteModel>,
    outcomes: Seq<Outcome>,
) -> Seq<char> {
    "scriptbox: subscripts in "@ + text::utf8_lossy(path) + " (wrapping):"@ + site_lines(
        sites,
        |i: int| outcomes[i].says(),
    )
}

/// The report of what was done about the sites of the script at `path`.
pub fn report_outcomes(path: &[u8], sites: &Vec<Site>, outcomes: &Vec<Outcome>) -> (r: String)
    requires
        sites@.len() == outcomes@.len(),
    ensures
        r@ == outcome_report(path@, sites::views(sites@), outcomes@),
{
    let ghost all = sites::views(sites@);
    let ghost status = |i: int| outcomes@[i].says();
    let mut out = "scriptbox: subscripts in ".to_owned();
    let name = text::from_utf8_lossy(path);
    out.append(name.as_str());
    out.append(" (wrapping):");
    let ghost head = out@;
    let mut i: usize = 0;
    assert(out@ =~= head + site_lines(all.take(0), status));
    while i < sites.len()
        invariant
            i <= sites@.len(),
            sites@.len() == outcomes@.len(),
            all == sites::views(sites@),
            status == (|i: int| outcomes@[i].says()),
            out@ == head + site_lines(all.take(i as int), status),
        decreases sites@.len() - i,
    {
        assert(all.take(i + 1).drop_last() =~= all.take(i as int));
        assert(all.take(i + 1).last() == sites@[i as int]@);
        push_site_line(&mut out, &sites[i], outcomes[i].text());
        i = i + 1;
        assert(out@ =~= head + site_lines(all.take(i as int), status));
    }
    assert(all.take(i as int) =~= all);
    out
}

/// The message for a script at `path` that is not UTF-8.
pub open spec fn not_text(path: Seq<u8>) -> Seq<char> {
    "scriptbox: subscripts: "@ + text::utf8_lossy(path) + " is not UTF-8; skipping"@
}

/// The message for a script at `path` that cannot be parsed.
pub open spec fn unparsable(path: Seq<u8>, why: Seq<char>) -> Seq<char> {
    "scriptbox: subscripts: could not parse "@ + text::utf8_lossy(path) + ": "@ + why
}

/// The message for a script at `path` that is included too deep down.
pub open spec fn too_deep(path: Seq<u8>) -> Seq<char> {
    "scriptbox: subscripts: source depth cap (64) hit at "@ + text::utf8_lossy(path)
        + "; leaving it"@
}

/// The message for a script at `path` that is not UTF-8.
pub fn not_text_message(path: &[u8]) -> (r: String)
    ensures
        r@ == not_text(path@),
{
    let mut out = "scriptbox: subscripts: ".to_owned();
    let name = text::from_utf8_lossy(path);
    out.append(name.as_str());
    out.append(" is not UTF-8; skipping");
    out
}

/// The message for a script at `path` that cannot be parsed.
pub fn unparsable_message(path: &[u8], why: &str) -> (r: String)
    ensures
        r@ == unparsable(path@, why@),
{
    let mut out = "scriptbox: subscripts: could not parse ".to_owned();
    let name = text::from_utf8_lossy(path);
    out.append(name.as_str());
    out.append(": ");
    out.append(why);
    out
}

/// The message for a script at `path` that is included too deep down.
pub fn too_deep_message(path: &[u8]) -> (r: String)
    ensures
        r@ == too_deep(path@),
{
    let mut out = "scriptbox: subscripts: source depth cap (64) hit at ".to_owned();
    let name = text::from_utf8_lossy(path);
    out.append(name.as_str());
    out.append("; leaving it");
    out
}

// ---------------------------------------------------------------------------
// Laws

/// What a script is found to be goes by its text: bytes that are no text are not
/// parsed, and text is what the parser says, with all its sites.
pub proof fn law_a_script_is_analysed_as_text(s: Seq<char>, bytes: Seq<u8>)
    ensures
        sites::sites_in(s) matches Ok(found) ==> analysed(encode_utf8(s)) == AnalysisModel::Found(
            s,
            found,
        ) && sites_of(encode_utf8(s)) == found,
        sites::sites_in(s) matches Err(e) ==> analysed(encode_utf8(s))
            == AnalysisModel::Unparsable(e) && sites_of(encode_utf8(s)).len() == 0,
        !valid_utf8(bytes) ==> analysed(bytes) == AnalysisModel::NotText && sites_of(bytes).len()
            == 0,
{
    encode_utf8_valid_utf8(s);
    encode_utf8_decode_utf8(s);
}

/// A child is the file that was found for it, where its name is known and a shell
/// reads it; of every other site there is a note with its line, its kind and its
/// name.
pub proof fn law_children_are_files_or_notes(site: SiteModel, found: Option<Seq<u8>>)
    ensures
        site.resolvable && site.category != Category::OtherChild && found is Some ==> child_of(
            site,
            found,
        ) == ChildModel::Resolved(found->0),
        !site.resolvable || site.category == Category::OtherChild || found is None ==> child_of(
            site,
            found,
        ) == ChildModel::Note(
            "line "@ + text::decimal(site.line as nat) + ": "@ + site.label + " "@ + site.target + (
            if site.category == Category::OtherChild {
                " - immune interpreter"@
            } else {
                " - dynamic / unresolvable path"@
            }),
        ),
{
    reveal_strlit(" - ");
    reveal_strlit("immune interpreter");
    reveal_strlit("dynamic / unresolvable path");
    reveal_strlit(" - immune interpreter");
    reveal_strlit(" - dynamic / unresolvable path");
    assert(" - "@ + "immune interpreter"@ =~= " - immune interpreter"@);
    assert(" - "@ + "dynamic / unresolvable path"@ =~= " - dynamic / unresolvable path"@);
    let head = "line "@ + text::decimal(site.line as nat) + ": "@ + site.label + " "@ + site.target;
    assert(note_on(site) =~= head + (if site.category == Category::OtherChild {
        " - immune interpreter"@
    } else {
        " - dynamic / unresolvable path"@
    }));
}

proof fn lemma_site_lines(sites: Seq<SiteModel>, status: spec_fn(int) -> Seq<char>)
    ensures
        site_lines(sites, status) == Seq::new(
            sites.len(),
            |i: int| seq!['\n'] + site_line(sites[i], status(i)),
        ).flatten(),
    decreases sites.len(),
{
    let all = Seq::new(sites.len(), |i: int| seq!['\n'] + site_line(sites[i], status(i)));
    if sites.len() > 0 {
        let init = sites.drop_last();
        lemma_site_lines(init, status);
        let less = Seq::new(init.len(), |i: int| seq!['\n'] + site_line(init[i], status(i)));
        let last = seq!['\n'] + site_line(sites.last(), status(sites.len() - 1));
        assert(all =~= less.push(last));
        less.lemma_flatten_push(last);
        assert(site_lines(sites, status) =~= less.flatten() + last);
    }
}

/// A report has one line for each site, in order, with its kind, its line, its name
/// and what was found or done.
pub proof fn law_reports_list_every_site(
    path: Seq<u8>,
    sites: Seq<SiteModel>,
    outcomes: Seq<Outcome>,
)
    ensures
        detection(path, sites) == "scriptbox: subscripts in "@ + text::utf8_lossy(path)
            + " (detection only):"@ + Seq::new(
            sites.len(),
            |i: int|
                seq!['\n'] + site_line(
                    sites[i],
                    if sites[i].resolvable {
                        "resolvable"@
                    } else {
                        "dynamic"@
                    },
                ),
        ).flatten(),
        outcome_report(path, sites, outcomes) == "scriptbox: subscripts in "@ + text::utf8_lossy(
            path,
        ) + " (wrapping):"@ + Seq::new(
            sites.len(),
            |i: int| seq!['\n'] + site_line(sites[i], outcomes[i].says()),
        ).flatten(),
{
    let found = |i: int| found_status(sites[i]);
    let done = |i: int| outcomes[i].says();
    lemma_site_lines(sites, found);
    lemma_site_lines(sites, done);
    assert(Seq::new(sites.len(), |i: int| seq!['\n'] + site_line(sites[i], found(i))) =~= Seq::new(
        sites.len(),
        |i: int|
            seq!['\n'] + site_line(
                sites[i],
                if sites[i].resolvable {
                    "resolvable"@
                } else {
                    "dynamic"@
                },
            ),
    ));
    assert(Seq::new(sites.len(), |i: int| seq!['\n'] + site_line(sites[i], done(i))) =~= Seq::new(
        sites.len(),
        |i: int| seq!['\n'] + site_line(sites[i], outcomes[i].says()),
    ));
}

/// The line on a site names its kind, its line and its target, and ends with the
/// status.
pub proof fn law_a_line_names_the_site(site: SiteModel, status: Seq<char>)
    ensures
        site.label.len() <= 6 && text::decimal(site.line as nat).len() <= 4 ==> site_line(
            site,
            status,
        ) == "  ["@ + site.label + Seq::new((6 - site.label.len()) as nat, |i: int| ' ')
            + "] line "@ + text::decimal(site.line as nat) + Seq::new(
            (4 - text::decimal(site.line as nat).len()) as nat,
            |i: int| ' ',
        ) + " "@ + site.target + "  ("@ + status + ")"@,
        exists|head: Seq<char>|
            site_line(site, status) == #[trigger] (head + (" "@ + site.target + "  ("@ + status
                + ")"@)),
{
    let number = text::decimal(site.line as nat);
    let head = "  ["@ + text::padded(site.label, 6) + "] line "@ + text::padded(number, 4);
    assert(site_line(site, status) =~= head + (" "@ + site.target + "  ("@ + status + ")"@));
    if site.label.len() <= 6 && number.len() <= 4 {
        assert(text::padded(site.label, 6) =~= site.label + Seq::new(
            (6 - site.label.len()) as nat,
            |i: int| ' ',
        ));
        assert(text::padded(number, 4) =~= number + Seq::new(
            (4 - number.len()) as nat,
            |i: int| ' ',
        ));
        assert(site_line(site, status) =~= "  ["@ + site.label + Seq::new(
            (6 - site.label.len()) as nat,
            |i: int| ' ',
        ) + "] line "@ + number + Seq::new((4 - number.len()) as nat, |i: int| ' ') + " "@
            + site.target + "  ("@ + status + ")"@);
    }
}

} // verus!
