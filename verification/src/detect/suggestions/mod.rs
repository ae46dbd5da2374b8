//! Framework-aware fixes for findings.
//!
//! A finding is given a fix when its instrumentation scopes, its code location or its service name
//! tell the framework that produced the anti-pattern.

pub mod fixes;
pub mod rules;

use crate::detect::finding;
use crate::detect::finding::{Finding, FindingType, FindingView};
use crate::detect::suggestions::rules::Language;
use crate::event;
use crate::event::CodeLocationView;
use crate::text;
use vstd::prelude::*;

verus! {

/// A framework, or a language as a whole.
#[derive(Debug, Clone, Copy, PartialEq, Eq, Hash, Structural)]
pub enum Framework {
    JavaJpa,
    JavaWebFlux,
    JavaQuarkusReactive,
    JavaQuarkus,
    JavaHelidonMp,
    JavaHelidonSe,
    JavaGeneric,
    CsharpEfCore,
    CsharpGeneric,
    PythonDjango,
    PythonSqlAlchemy,
    PythonGeneric,
    RustDiesel,
    RustSeaOrm,
    RustGeneric,
    GoGorm,
    GoGeneric,
    NodePrisma,
    NodeGeneric,
    RubyActiveRecord,
    RubyGeneric,
    PhpLaravelEloquent,
    PhpDoctrine,
    PhpGeneric,
}

impl Framework {
    /// The stable tag of the framework.
    pub open spec fn tag(self) -> Seq<char> {
        match self {
            Framework::JavaJpa => "java_jpa"@,
            Framework::JavaWebFlux => "java_webflux"@,
            Framework::JavaQuarkusReactive => "java_quarkus_reactive"@,
            Framework::JavaQuarkus => "java_quarkus"@,
            Framework::JavaHelidonMp => "java_helidon_mp"@,
            Framework::JavaHelidonSe => "java_helidon_se"@,
            Framework::JavaGeneric => "java_generic"@,
            Framework::CsharpEfCore => "csharp_ef_core"@,
            Framework::CsharpGeneric => "csharp_generic"@,
            Framework::PythonDjango => "python_django"@,
            Framework::PythonSqlAlchemy => "python_sqlalchemy"@,
            Framework::PythonGeneric => "python_generic"@,
            Framework::RustDiesel => "rust_diesel"@,
            Framework::RustSeaOrm => "rust_sea_orm"@,
            Framework::RustGeneric => "rust_generic"@,
            Framework::GoGorm => "go_gorm"@,
            Framework::GoGeneric => "go_generic"@,
            Framework::NodePrisma => "node_prisma"@,
            Framework::NodeGeneric => "node_generic"@,
            Framework::RubyActiveRecord => "ruby_active_record"@,
            Framework::RubyGeneric => "ruby_generic"@,
            Framework::PhpLaravelEloquent => "php_laravel_eloquent"@,
            Framework::PhpDoctrine => "php_doctrine"@,
            Framework::PhpGeneric => "php_generic"@,
        }
    }

    /// The stable tag of the framework.
    pub fn as_str(self) -> (r: &'static str)
        ensures
            r@ == self.tag(),
    {
        match self {
            Framework::JavaJpa => "java_jpa",
            Framework::JavaWebFlux => "java_webflux",
            Framework::JavaQuarkusReactive => "java_quarkus_reactive",
            Framework::JavaQuarkus => "java_quarkus",
            Framework::JavaHelidonMp => "java_helidon_mp",
            Framework::JavaHelidonSe => "java_helidon_se",
            Framework::JavaGeneric => "java_generic",
            Framework::CsharpEfCore => "csharp_ef_core",
            Framework::CsharpGeneric => "csharp_generic",
            Framework::PythonDjango => "python_django",
            Framework::PythonSqlAlchemy => "python_sqlalchemy",
            Framework::PythonGeneric => "python_generic",
            Framework::RustDiesel => "rust_diesel",
            Framework::RustSeaOrm => "rust_sea_orm",
            Framework::RustGeneric => "rust_generic",
            Framework::GoGorm => "go_gorm",
            Framework::GoGeneric => "go_generic",
            Framework::NodePrisma => "node_prisma",
            Framework::NodeGeneric => "node_generic",
            Framework::RubyActiveRecord => "ruby_active_record",
            Framework::RubyGeneric => "ruby_generic",
            Framework::PhpLaravelEloquent => "php_laravel_eloquent",
            Framework::PhpDoctrine => "php_doctrine",
            Framework::PhpGeneric => "php_generic",
        }
    }
}

/// A framework-specific fix attached to a finding.
#[derive(Debug, Clone, PartialEq, Eq)]
pub struct SuggestedFix {
    /// The finding's type in `snake_case`.
    pub pattern: String,
    /// Tag of the framework that the fix applies to.
    pub framework: String,
    /// Short, imperative remediation sentence.
    pub recommendation: String,
    /// Documentation backing the recommendation.
    pub reference_url: Option<String>,
}

/// The mathematical value of a [`SuggestedFix`].
pub struct SuggestedFixView {
    pub pattern: Seq<char>,
    pub framework: Seq<char>,
    pub recommendation: Seq<char>,
    pub reference_url: Option<Seq<char>>,
}

impl View for SuggestedFix {
    type V = SuggestedFixView;

    open spec fn view(&self) -> SuggestedFixView {
        SuggestedFixView {
            pattern: self.pattern@,
            framework: self.framework@,
            recommendation: self.recommendation@,
            reference_url: event::opt_view(self.reference_url),
        }
    }
}

impl SuggestedFix {
    /// A copy of the fix.
    pub fn duplicate(&self) -> (r: SuggestedFix)
        ensures
            r@ == self@,
    {
        SuggestedFix {
            pattern: self.pattern.clone(),
            framework: self.framework.clone(),
            recommendation: self.recommendation.clone(),
            reference_url: event::copy_opt(&self.reference_url),
        }
    }
}

/// The namespace of a location; the empty one when it is unknown.
pub open spec fn namespace_of(loc: Option<CodeLocationView>) -> Seq<char> {
    match loc {
        Some(l) => match l.namespace {
            Some(ns) => ns,
            None => Seq::empty(),
        },
        None => Seq::empty(),
    }
}

/// The framework that a namespace tells in a known language, or the language as a whole.
pub open spec fn framework_in(ns: Seq<char>, language: Language) -> Framework {
    match rules::framework_of_namespace(ns, language) {
        Some(f) => f,
        None => language.whole(),
    }
}

/// The first of two answers that there is.
pub open spec fn either(a: Option<Framework>, b: Option<Framework>) -> Option<Framework> {
    match a {
        Some(f) => Some(f),
        None => b,
    }
}

/// The framework that a namespace alone tells. A `\\` stands in PHP namespaces only.
pub open spec fn framework_of_bare_namespace(ns: Seq<char>) -> Option<Framework> {
    if ns.len() == 0 {
        None
    } else if ns.contains('\\') {
        rules::framework_of_namespace(ns, Language::Php)
    } else {
        either(
            rules::framework_of_namespace(ns, Language::Java),
            either(
                rules::framework_of_namespace(ns, Language::Csharp),
                either(
                    rules::framework_of_namespace(ns, Language::Python),
                    either(
                        rules::framework_of_namespace(ns, Language::Rust),
                        either(
                            rules::framework_of_namespace(ns, Language::Go),
                            rules::framework_of_namespace(ns, Language::JavaScript),
                        ),
                    ),
                ),
            ),
        )
    }
}

/// The language that the file of a location tells.
pub open spec fn language_of_location(loc: Option<CodeLocationView>) -> Option<Language> {
    match loc {
        Some(l) => match l.filepath {
            Some(fp) => rules::language_of_path(fp),
            None => None,
        },
        None => None,
    }
}

/// The framework of a finding, from the most reliable signal that tells it: the instrumentation
/// scopes, the language that scopes tell, the language that the source file tells, the namespace
/// alone, the service name.
pub open spec fn framework_of(f: FindingView) -> Option<Framework> {
    let ns = namespace_of(f.code_location);
    match rules::framework_of_scopes(f.instrumentation_scopes) {
        Some(framework) => Some(framework),
        None => match rules::language_of_scopes(f.instrumentation_scopes) {
            Some(language) => Some(framework_in(ns, language)),
            None => match language_of_location(f.code_location) {
                Some(language) => Some(framework_in(ns, language)),
                None => either(
                    framework_of_bare_namespace(ns),
                    rules::framework_of_service(f.service),
                ),
            },
        },
    }
}

/// The fix that the table has for a type of finding under a framework.
pub open spec fn fix_of(finding_type: FindingType, framework: Framework) -> Option<
    SuggestedFixView,
> {
    match fixes::fix_entry(finding_type, framework) {
        Some(t) => Some(
            SuggestedFixView {
                pattern: finding_type.name(),
                framework: framework.tag(),
                recommendation: t.recommendation@,
                reference_url: match t.reference_url {
                    Some(u) => Some(u@),
                    None => None,
                },
            },
        ),
        None => None,
    }
}

/// The fix for a finding whose framework is told and has one.
pub open spec fn suggested(f: FindingView) -> Option<SuggestedFixView> {
    match framework_of(f) {
        Some(framework) => fix_of(f.finding_type, framework),
        None => None,
    }
}

/// A finding with the fix for it, if there is one.
pub open spec fn enriched(f: FindingView) -> FindingView {
    match suggested(f) {
        Some(fix) => FindingView { suggested_fix: Some(fix), ..f },
        None => f,
    }
}

/// Findings with the fixes for them.
pub open spec fn all_enriched(s: Seq<FindingView>) -> Seq<FindingView> {
    s.map_values(|f: FindingView| enriched(f))
}

fn namespace_alone(ns: &str) -> (r: Option<Framework>)
    ensures
        r == framework_of_bare_namespace(ns@),
{
    if ns.is_empty() {
        return None;
    }
    if text::contains_char(ns, '\\') {
        return rules::match_namespace_against_language(ns, Language::Php);
    }
    if let Some(f) = rules::match_namespace_against_language(ns, Language::Java) {
        return Some(f);
    }
    if let Some(f) = rules::match_namespace_against_language(ns, Language::Csharp) {
        return Some(f);
    }
    if let Some(f) = rules::match_namespace_against_language(ns, Language::Python) {
        return Some(f);
    }
    if let Some(f) = rules::match_namespace_against_language(ns, Language::Rust) {
        return Some(f);
    }
    if let Some(f) = rules::match_namespace_against_language(ns, Language::Go) {
        return Some(f);
    }
    rules::match_namespace_against_language(ns, Language::JavaScript)
}

fn namespace_in(ns: &str, language: Language) -> (r: Framework)
    ensures
        r == framework_in(ns@, language),
{
    match rules::match_namespace_against_language(ns, language) {
        Some(f) => f,
        None => language.generic(),
    }
}

/// The framework of a finding, from the most reliable signal that tells it.
pub fn detect_framework(finding: &Finding) -> (r: Option<Framework>)
    ensures
        r == framework_of(finding@),
{
    proof {
        reveal_strlit("");
        assert(""@ =~= Seq::<char>::empty());
    }
    if let Some(framework) = rules::detect_framework_from_scopes(&finding.instrumentation_scopes) {
        return Some(framework);
    }
    let ns: &str = match &finding.code_location {
        Some(loc) => match &loc.namespace {
            Some(ns) => ns.as_str(),
            None => "",
        },
        None => "",
    };
    if let Some(language) = rules::language_from_scope_prefix(&finding.instrumentation_scopes) {
        return Some(namespace_in(ns, language));
    }
    if let Some(loc) = &finding.code_location {
        if let Some(fp) = &loc.filepath {
            if let Some(language) = rules::language_from_filepath(fp.as_str()) {
                return Some(namespace_in(ns, language));
            }
        }
    }
    if let Some(framework) = namespace_alone(ns) {
        return Some(framework);
    }
    rules::detect_framework_from_service_name(finding.service.as_str())
}

/// The fix that the table has for a type of finding under a framework.
pub fn table_fix(finding_type: FindingType, framework: Framework) -> (r: Option<SuggestedFix>)
    ensures
        finding::fix_view(r) == fix_of(finding_type, framework),
{
    match fixes::fix_text(finding_type, framework) {
        Some(t) => Some(
            SuggestedFix {
                pattern: finding_type.as_str().to_string(),
                framework: framework.as_str().to_string(),
                recommendation: t.recommendation.to_string(),
                reference_url: match t.reference_url {
                    Some(u) => Some(u.to_string()),
                    None => None,
                },
            },
        ),
        None => None,
    }
}

/// Every type of finding, in the order in which findings are listed.
pub open spec fn all_finding_types() -> Seq<FindingType> {
    seq![
        FindingType::NPlusOneSql,
        FindingType::NPlusOneHttp,
        FindingType::RedundantSql,
        FindingType::RedundantHttp,
        FindingType::SlowSql,
        FindingType::SlowHttp,
        FindingType::ExcessiveFanout,
        FindingType::ChattyService,
        FindingType::PoolSaturation,
        FindingType::SerializedCalls,
    ]
}

fn finding_types() -> (r: Vec<FindingType>)
    ensures
        r@ == all_finding_types(),
{
    let r = vec![
        FindingType::NPlusOneSql,
        FindingType::NPlusOneHttp,
        FindingType::RedundantSql,
        FindingType::RedundantHttp,
        FindingType::SlowSql,
        FindingType::SlowHttp,
        FindingType::ExcessiveFanout,
        FindingType::ChattyService,
        FindingType::PoolSaturation,
        FindingType::SerializedCalls,
    ];
    assert(r@ =~= all_finding_types());
    r
}

/// Every framework, in the order of the table of fixes.
pub open spec fn all_frameworks() -> Seq<Framework> {
    seq![
        Framework::JavaJpa,
        Framework::JavaWebFlux,
        Framework::JavaQuarkusReactive,
        Framework::JavaQuarkus,
        Framework::JavaHelidonMp,
        Framework::JavaHelidonSe,
        Framework::JavaGeneric,
        Framework::CsharpEfCore,
        Framework::CsharpGeneric,
        Framework::PythonDjango,
        Framework::PythonSqlAlchemy,
        Framework::PythonGeneric,
        Framework::RustDiesel,
        Framework::RustSeaOrm,
        Framework::RustGeneric,
        Framework::GoGorm,
        Framework::GoGeneric,
        Framework::NodePrisma,
        Framework::NodeGeneric,
        Framework::RubyActiveRecord,
        Framework::RubyGeneric,
        Framework::PhpLaravelEloquent,
        Framework::PhpDoctrine,
        Framework::PhpGeneric,
    ]
}

fn frameworks() -> (r: Vec<Framework>)
    ensures
        r@ == all_frameworks(),
{
    let r = vec![
        Framework::JavaJpa,
        Framework::JavaWebFlux,
        Framework::JavaQuarkusReactive,
        Framework::JavaQuarkus,
        Framework::JavaHelidonMp,
        Framework::JavaHelidonSe,
        Framework::JavaGeneric,
        Framework::CsharpEfCore,
        Framework::CsharpGeneric,
        Framework::PythonDjango,
        Framework::PythonSqlAlchemy,
        Framework::PythonGeneric,
        Framework::RustDiesel,
        Framework::RustSeaOrm,
        Framework::RustGeneric,
        Framework::GoGorm,
        Framework::GoGeneric,
        Framework::NodePrisma,
        Framework::NodeGeneric,
        Framework::RubyActiveRecord,
        Framework::RubyGeneric,
        Framework::PhpLaravelEloquent,
        Framework::PhpDoctrine,
        Framework::PhpGeneric,
    ];
    assert(r@ =~= all_frameworks());
    r
}

/// One row of the table of fixes.
#[derive(Debug, Clone, PartialEq, Eq)]
pub struct FixRow {
    pub finding_type: FindingType,
    pub framework: Framework,
    pub fix: SuggestedFix,
}

/// The value of a row.
pub open spec fn row_view(row: FixRow) -> (FindingType, Framework, SuggestedFixView) {
    (row.finding_type, row.framework, row.fix@)
}

/// The rows of a type of finding for the first `n` frameworks.
pub open spec fn rows_of_type(finding_type: FindingType, n: nat) -> Seq<
    (FindingType, Framework, SuggestedFixView),
>
    decreases n,
{
    if n == 0 {
        Seq::empty()
    } else {
        let rest = rows_of_type(finding_type, (n - 1) as nat);
        let framework = all_frameworks()[n - 1];
        match fix_of(finding_type, framework) {
            Some(fix) => rest.push((finding_type, framework, fix)),
            None => rest,
        }
    }
}

/// The rows of the first `n` types of finding.
pub open spec fn rows(n: nat) -> Seq<(FindingType, Framework, SuggestedFixView)>
    decreases n,
{
    if n == 0 {
        Seq::empty()
    } else {
        rows((n - 1) as nat) + rows_of_type(all_finding_types()[n - 1], all_frameworks().len())
    }
}

/// The whole table of fixes: one row for each type of finding and framework that has a fix.
pub fn fix_table() -> (r: Vec<FixRow>)
    ensures
        r@.map_values(|row: FixRow| row_view(row)) == rows(all_finding_types().len()),
{
    let types = finding_types();
    let all = frameworks();
    let mut out: Vec<FixRow> = Vec::new();
    let mut t: usize = 0;
    let ghost v = |row: FixRow| row_view(row);
    assert(out@.map_values(v) =~= rows(0));
    while t < types.len()
        invariant
            t <= types@.len(),
            types@ == all_finding_types(),
            all@ == all_frameworks(),
            v == (|row: FixRow| row_view(row)),
            out@.map_values(v) == rows(t as nat),
        decreases types@.len() - t,
    {
        let finding_type = types[t];
        let ghost before = out@.map_values(v);
        let mut k: usize = 0;
        assert(out@.map_values(v) =~= before + rows_of_type(finding_type, 0));
        while k < all.len()
            invariant
                k <= all@.len(),
                all@ == all_frameworks(),
                v == (|row: FixRow| row_view(row)),
                out@.map_values(v) == before + rows_of_type(finding_type, k as nat),
            decreases all@.len() - k,
        {
            let ghost earlier = out@;
            if let Some(fix) = table_fix(finding_type, all[k]) {
                out.push(FixRow { finding_type, framework: all[k], fix });
                assert(out@.map_values(v) =~= earlier.map_values(v).push(v(out@.last())));
            }
            assert(out@.map_values(v) =~= before + rows_of_type(finding_type, (k + 1) as nat));
            k += 1;
        }
        t += 1;
    }
    out
}

proof fn lemma_rows_of_type(finding_type: FindingType, n: nat, i: int)
    requires
        n <= all_frameworks().len(),
        0 <= i < rows_of_type(finding_type, n).len(),
    ensures
        ({
            let row = rows_of_type(finding_type, n)[i];
            row.0 == finding_type && fix_of(row.0, row.1) == Some(row.2)
        }),
    decreases n,
{
    if n > 0 && i < rows_of_type(finding_type, (n - 1) as nat).len() {
        lemma_rows_of_type(finding_type, (n - 1) as nat, i);
    }
}

/// Every row of the table gives the fix that is looked up for its type and framework.
pub proof fn law_rows_are_what_is_looked_up(n: nat, i: int)
    requires
        n <= all_finding_types().len(),
        0 <= i < rows(n).len(),
    ensures
        fix_of(rows(n)[i].0, rows(n)[i].1) == Some(rows(n)[i].2),
    decreases n,
{
    if n > 0 {
        let rest = rows((n - 1) as nat);
        if i < rest.len() {
            law_rows_are_what_is_looked_up((n - 1) as nat, i);
        } else {
            lemma_rows_of_type(
                all_finding_types()[n - 1],
                all_frameworks().len(),
                i - rest.len(),
            );
        }
    }
}

/// Giving a finding its fix changes no other part of it, and leaves a finding without a fix as it
/// is.
pub proof fn law_enriching_changes_only_the_fix(f: FindingView)
    ensures
        (FindingView { suggested_fix: f.suggested_fix, ..enriched(f) }) == f,
        suggested(f) is None ==> enriched(f) == f,
        suggested(f) is Some ==> enriched(f).suggested_fix == suggested(f),
        enriched(enriched(f)) == enriched(f),
{
}

/// The fix for a finding whose framework is told and has one.
pub fn lookup_fix(finding: &Finding) -> (r: Option<SuggestedFix>)
    ensures
        finding::fix_view(r) == suggested(finding@),
{
    match detect_framework(finding) {
        Some(framework) => table_fix(finding.finding_type, framework),
        None => None,
    }
}

/// Give each finding the fix for it, where there is one.
pub fn enrich(findings: &mut Vec<Finding>)
    ensures
        finding::finding_views(final(findings)@) == all_enriched(
            finding::finding_views(old(findings)@),
        ),
{
    let ghost before = findings@;
    let mut i: usize = 0;
    while i < findings.len()
        invariant
            i <= findings@.len(),
            findings@.len() == before.len(),
            forall|k: int| 0 <= k < i ==> (#[trigger] findings@[k])@ == enriched(before[k]@),
            forall|k: int| i <= k < findings@.len() ==> #[trigger] findings@[k] == before[k],
        decreases findings@.len() - i,
    {
        if let Some(fix) = lookup_fix(&findings[i]) {
            findings[i].suggested_fix = Some(fix);
        }
        i += 1;
    }
    assert(finding::finding_views(findings@) =~= all_enriched(finding::finding_views(before)));
}

/// The framework of a finding is told by the first signal that tells it: its instrumentation scopes;
/// the language of its scopes, or else of its file, together with its namespace; its namespace
/// alone; its service name. The fix is the one that the table has for the framework, under the names
/// of the type and of the framework.
pub proof fn law_most_reliable_signal_tells(f: Finding)
    ensures
        ({
            let scopes = f.instrumentation_scopes@.map_values(|t: String| t@);
            let ns = if f.code_location is Some && f.code_location->0.namespace is Some {
                f.code_location->0.namespace->0@
            } else {
                Seq::empty()
            };
            let by_file = if f.code_location is Some && f.code_location->0.filepath is Some {
                rules::language_of_path(f.code_location->0.filepath->0@)
            } else {
                None
            };
            let by_scopes = rules::language_of_scopes(scopes);
            let language = if by_scopes is Some {
                by_scopes
            } else {
                by_file
            };
            let framework = if rules::framework_of_scopes(scopes) is Some {
                rules::framework_of_scopes(scopes)
            } else if language is Some {
                if rules::framework_of_namespace(ns, language->0) is Some {
                    rules::framework_of_namespace(ns, language->0)
                } else {
                    Some(language->0.whole())
                }
            } else if ns.len() > 0 && framework_of_bare_namespace(ns) is Some {
                framework_of_bare_namespace(ns)
            } else {
                rules::framework_of_service(f.service@)
            };
            let entry = fixes::fix_entry(f.finding_type, framework->0);
            let fix = enriched(f@).suggested_fix;
            &&& framework_of(f@) == framework
            &&& framework is None || entry is None ==> fix == f@.suggested_fix
            &&& framework is Some && entry is Some ==> fix is Some && fix->0.pattern
                == f.finding_type.name() && fix->0.framework == framework->0.tag()
                && fix->0.recommendation == entry->0.recommendation@ && (fix->0.reference_url
                is Some <==> entry->0.reference_url is Some) && (entry->0.reference_url is Some
                ==> fix->0.reference_url->0 == entry->0.reference_url->0@)
        }),
{
    let scopes = f.instrumentation_scopes@.map_values(|t: String| t@);
    assert(f@.instrumentation_scopes =~= scopes);
}

/// A namespace alone tells a PHP framework where it holds a `\\`, and otherwise the framework of the
/// first language, of Java, C#, Python, Rust, Go and JavaScript, that has a hint for it.
pub proof fn law_namespace_alone_is_tried_by_language(ns: Seq<char>)
    ensures
        ns.len() == 0 ==> framework_of_bare_namespace(ns) is None,
        ns.contains('\\') ==> framework_of_bare_namespace(ns) == rules::framework_of_namespace(
            ns,
            Language::Php,
        ),
        ns.len() > 0 && !ns.contains('\\') ==> ({
            let told = framework_of_bare_namespace(ns);
            let java = rules::framework_of_namespace(ns, Language::Java);
            let csharp = rules::framework_of_namespace(ns, Language::Csharp);
            let python = rules::framework_of_namespace(ns, Language::Python);
            let rust = rules::framework_of_namespace(ns, Language::Rust);
            let go = rules::framework_of_namespace(ns, Language::Go);
            let script = rules::framework_of_namespace(ns, Language::JavaScript);
            &&& java is Some ==> told == java
            &&& java is None && csharp is Some ==> told == csharp
            &&& java is None && csharp is None && python is Some ==> told == python
            &&& java is None && csharp is None && python is None && rust is Some ==> told == rust
            &&& java is None && csharp is None && python is None && rust is None && go is Some
                ==> told == go
            &&& java is None && csharp is None && python is None && rust is None && go is None
                ==> told == script
        }),
{
    if ns.contains('\\') {
        let k = choose|k: int| 0 <= k < ns.len() && ns[k] == '\\';
    }
}

/// A language without a known framework stands for itself.
pub proof fn law_language_stands_for_itself(language: Language)
    ensures
        language is Java ==> language.whole() is JavaGeneric,
        language is Csharp ==> language.whole() is CsharpGeneric,
        language is Python ==> language.whole() is PythonGeneric,
        language is Rust ==> language.whole() is RustGeneric,
        language is Go ==> language.whole() is GoGeneric,
        language is JavaScript ==> language.whole() is NodeGeneric,
        language is Ruby ==> language.whole() is RubyGeneric,
        language is Php ==> language.whole() is PhpGeneric,
{
}

/// Every type of finding and every framework is listed, each once, so that the table of fixes has a
/// row for every two that have a fix.
pub proof fn law_every_type_and_framework_is_listed(finding_type: FindingType, framework: Framework)
    ensures
        all_finding_types().contains(finding_type),
        all_frameworks().contains(framework),
        all_finding_types().no_duplicates(),
        all_frameworks().no_duplicates(),
        forall|i: int|
            0 <= i < all_finding_types().len() ==> (#[trigger] all_finding_types()[i]).position()
                == i,
{
    let types = all_finding_types();
    let all = all_frameworks();
    let i = match finding_type {
        FindingType::NPlusOneSql => 0int,
        FindingType::NPlusOneHttp => 1int,
        FindingType::RedundantSql => 2int,
        FindingType::RedundantHttp => 3int,
        FindingType::SlowSql => 4int,
        FindingType::SlowHttp => 5int,
        FindingType::ExcessiveFanout => 6int,
        FindingType::ChattyService => 7int,
        FindingType::PoolSaturation => 8int,
        FindingType::SerializedCalls => 9int,
    };
    assert(types[i] == finding_type);
    let k = match framework {
        Framework::JavaJpa => 0int,
        Framework::JavaWebFlux => 1int,
        Framework::JavaQuarkusReactive => 2int,
        Framework::JavaQuarkus => 3int,
        Framework::JavaHelidonMp => 4int,
        Framework::JavaHelidonSe => 5int,
        Framework::JavaGeneric => 6int,
        Framework::CsharpEfCore => 7int,
        Framework::CsharpGeneric => 8int,
        Framework::PythonDjango => 9int,
        Framework::PythonSqlAlchemy => 10int,
        Framework::PythonGeneric => 11int,
        Framework::RustDiesel => 12int,
        Framework::RustSeaOrm => 13int,
        Framework::RustGeneric => 14int,
        Framework::GoGorm => 15int,
        Framework::GoGeneric => 16int,
        Framework::NodePrisma => 17int,
        Framework::NodeGeneric => 18int,
        Framework::RubyActiveRecord => 19int,
        Framework::RubyGeneric => 20int,
        Framework::PhpLaravelEloquent => 21int,
        Framework::PhpDoctrine => 22int,
        Framework::PhpGeneric => 23int,
    };
    assert(all[k] == framework);
    assert forall|i: int| 0 <= i < types.len() implies (#[trigger] types[i]).position() == i by {}
    let place = |f: Framework|
        match f {
            Framework::JavaJpa => 0int,
            Framework::JavaWebFlux => 1int,
            Framework::JavaQuarkusReactive => 2int,
            Framework::JavaQuarkus => 3int,
            Framework::JavaHelidonMp => 4int,
            Framework::JavaHelidonSe => 5int,
            Framework::JavaGeneric => 6int,
            Framework::CsharpEfCore => 7int,
            Framework::CsharpGeneric => 8int,
            Framework::PythonDjango => 9int,
            Framework::PythonSqlAlchemy => 10int,
            Framework::PythonGeneric => 11int,
            Framework::RustDiesel => 12int,
            Framework::RustSeaOrm => 13int,
            Framework::RustGeneric => 14int,
            Framework::GoGorm => 15int,
            Framework::GoGeneric => 16int,
            Framework::NodePrisma => 17int,
            Framework::NodeGeneric => 18int,
            Framework::RubyActiveRecord => 19int,
            Framework::RubyGeneric => 20int,
            Framework::PhpLaravelEloquent => 21int,
            Framework::PhpDoctrine => 22int,
            Framework::PhpGeneric => 23int,
        };
    assert forall|i: int| 0 <= i < all.len() implies place(#[trigger] all[i]) == i by {}
}

/// The value of a row tells its type, its framework and its fix.
pub proof fn law_row_value_tells_its_parts(row: FixRow)
    ensures
        row_view(row).0 == row.finding_type,
        row_view(row).1 == row.framework,
        row_view(row).2 == row.fix@,
        fix_of(row.finding_type, row.framework) is Some <==> fixes::fix_entry(
            row.finding_type,
            row.framework,
        ) is Some,
{
}

} // verus!
