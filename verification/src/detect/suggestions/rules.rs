//! What tells the framework of a finding: instrumentation scopes, namespaces, file names and service
//! names.

use crate::detect::suggestions::Framework;
use crate::event;
use crate::text;
use vstd::prelude::*;

verus! {

/// A hint that a namespace may match.
#[derive(Debug, Clone, Copy)]
pub enum Hint {
    /// The text stands in the namespace between segment delimiters.
    Substring(&'static str),
    /// The last segment of the namespace ends with the text.
    LastSegmentEndsWith(&'static str),
}

/// The mathematical value of a [`Hint`].
pub enum HintView {
    Substring(Seq<char>),
    LastSegmentEndsWith(Seq<char>),
}

impl View for Hint {
    type V = HintView;

    open spec fn view(&self) -> HintView {
        match self {
            Hint::Substring(s) => HintView::Substring(s@),
            Hint::LastSegmentEndsWith(s) => HintView::LastSegmentEndsWith(s@),
        }
    }
}

/// A programming language.
#[derive(Debug, Clone, Copy, PartialEq, Eq, Structural)]
pub enum Language {
    Java,
    Csharp,
    Python,
    Rust,
    Go,
    JavaScript,
    Ruby,
    Php,
}

/// The namespace hints of a language, most specific framework first.
pub open spec fn namespace_hints(language: Language) -> Seq<(Framework, HintView)> {
    match language {
        Language::Java => seq![
            (Framework::JavaHelidonMp, HintView::Substring("io.helidon.microprofile"@)),
            (Framework::JavaHelidonSe, HintView::Substring("io.helidon"@)),
            (Framework::JavaQuarkusReactive, HintView::Substring("io.quarkus.hibernate.reactive"@)),
            (Framework::JavaQuarkusReactive, HintView::Substring("io.quarkus.panache.reactive"@)),
            (Framework::JavaQuarkusReactive, HintView::Substring("io.quarkus.reactive"@)),
            (Framework::JavaQuarkusReactive, HintView::Substring("org.hibernate.reactive"@)),
            (Framework::JavaQuarkusReactive, HintView::Substring("io.smallrye.mutiny"@)),
            (Framework::JavaQuarkus, HintView::Substring("io.quarkus.hibernate.orm"@)),
            (Framework::JavaQuarkus, HintView::Substring("io.quarkus.panache.common"@)),
            (Framework::JavaQuarkus, HintView::Substring("io.quarkus"@)),
            (Framework::JavaWebFlux, HintView::Substring("org.springframework.web.reactive"@)),
            (Framework::JavaWebFlux, HintView::Substring("reactor.core"@)),
            (Framework::JavaJpa, HintView::Substring("jakarta.persistence"@)),
            (Framework::JavaJpa, HintView::Substring("javax.persistence"@)),
            (Framework::JavaJpa, HintView::Substring("org.hibernate"@)),
            (Framework::JavaJpa, HintView::Substring("org.springframework.data.jpa"@)),
            (Framework::JavaJpa, HintView::LastSegmentEndsWith("Repository"@)),
            (Framework::JavaJpa, HintView::LastSegmentEndsWith("Repo"@)),
            (Framework::JavaJpa, HintView::LastSegmentEndsWith("Dao"@)),
        ],
        Language::Csharp => seq![
            (Framework::CsharpEfCore, HintView::Substring("Microsoft.EntityFrameworkCore"@)),
            (Framework::CsharpEfCore, HintView::Substring("Pomelo.EntityFrameworkCore"@)),
        ],
        Language::Python => seq![
            (Framework::PythonDjango, HintView::Substring("django"@)),
            (Framework::PythonSqlAlchemy, HintView::Substring("sqlalchemy"@)),
        ],
        Language::Rust => seq![
            (Framework::RustDiesel, HintView::Substring("diesel::"@)),
            (Framework::RustSeaOrm, HintView::Substring("sea_orm::"@)),
        ],
        Language::Go => seq![
            (Framework::GoGorm, HintView::Substring("gorm"@)),
        ],
        Language::JavaScript => seq![
            (Framework::NodePrisma, HintView::Substring("prisma"@)),
        ],
        Language::Ruby => Seq::empty(),
        Language::Php => seq![
            (Framework::PhpLaravelEloquent, HintView::Substring("Illuminate\\Database\\Eloquent"@)),
            (Framework::PhpLaravelEloquent, HintView::Substring("App\\Models"@)),
            (Framework::PhpDoctrine, HintView::Substring("Doctrine\\ORM"@)),
            (Framework::PhpDoctrine, HintView::Substring("Doctrine\\DBAL"@)),
        ],
    }
}

/// Framework names distinctive enough to be told from a service name, more specific first.
pub open spec fn service_name_needles() -> Seq<(Framework, Seq<char>)> {
    seq![
        (Framework::JavaHelidonMp, "helidon-mp"@),
        (Framework::JavaHelidonMp, "helidon.mp"@),
        (Framework::JavaHelidonSe, "helidon"@),
    ]
}

/// Instrumentation libraries whose scope names tell the framework. The order matters: the reactive
/// variant before the plain one, and the application framework before the ORM under it.
pub open spec fn scope_needles() -> Seq<(Framework, Seq<char>)> {
    seq![
        (Framework::JavaQuarkusReactive, "hibernate-reactive"@),
        (Framework::JavaQuarkus, "quarkus"@),
        (Framework::JavaWebFlux, "spring-webflux"@),
        (Framework::JavaWebFlux, "r2dbc"@),
        (Framework::JavaJpa, "spring-data"@),
        (Framework::JavaJpa, "hibernate"@),
        (Framework::JavaHelidonSe, "helidon"@),
        (Framework::PythonDjango, "django"@),
        (Framework::PythonSqlAlchemy, "sqlalchemy"@),
    ]
}

/// Scopes that tell the framework by a prefix of dotted segments, more specific first.
pub open spec fn vendor_scope_prefixes() -> Seq<(Framework, Seq<char>)> {
    seq![
        (Framework::CsharpEfCore, "OpenTelemetry.Instrumentation.EntityFrameworkCore"@),
        (Framework::CsharpEfCore, "Microsoft.EntityFrameworkCore"@),
        (Framework::JavaQuarkusReactive, "io.quarkus.hibernate.reactive"@),
        (Framework::JavaQuarkusReactive, "io.quarkus.panache.reactive"@),
        (Framework::JavaQuarkusReactive, "io.quarkus.reactive"@),
        (Framework::JavaQuarkus, "io.quarkus"@),
        (Framework::RubyActiveRecord, "OpenTelemetry::Instrumentation::ActiveRecord"@),
        (Framework::PhpDoctrine, "io.opentelemetry.contrib.php.doctrine"@),
        (Framework::PhpLaravelEloquent, "io.opentelemetry.contrib.php.laravel"@),
    ]
}

/// The framework of the first entry whose other part satisfies the test.
pub open spec fn first_framework<A>(
    table: Seq<(Framework, A)>,
    test: spec_fn(A) -> bool,
) -> Option<Framework>
    decreases table.len(),
{
    if table.len() == 0 {
        None
    } else if test(table[0].1) {
        Some(table[0].0)
    } else {
        first_framework(table.drop_first(), test)
    }
}

proof fn lemma_first_framework_skip<A>(
    table: Seq<(Framework, A)>,
    test: spec_fn(A) -> bool,
    k: int,
)
    requires
        0 <= k <= table.len(),
        forall|i: int| 0 <= i < k ==> !test((#[trigger] table[i]).1),
    ensures
        first_framework(table, test) == first_framework(table.skip(k), test),
    decreases k,
{
    if k == 0 {
        assert(table.skip(0) =~= table);
    } else {
        assert(!test(table[0].1));
        let rest = table.drop_first();
        assert forall|i: int| 0 <= i < k - 1 implies !test((#[trigger] rest[i]).1) by {
            assert(rest[i] == table[i + 1]);
        }
        lemma_first_framework_skip(rest, test, k - 1);
        assert(rest.skip(k - 1) =~= table.skip(k));
    }
}

/// Whether a prefix of a scope ends at a `.` or with the scope.
pub open spec fn vendor_match(scope: Seq<char>, prefix: Seq<char>) -> bool {
    text::begins_with(scope, prefix) && (scope.len() == prefix.len() || scope[prefix.len() as int]
        == '.')
}

/// Segment-boundary prefix match for vendor scopes.
pub fn vendor_prefix_matches(scope: &str, prefix: &str) -> (r: bool)
    ensures
        r == vendor_match(scope@, prefix@),
{
    let s = text::chars_of(scope);
    let p = text::chars_of(prefix);
    text::stands_at(&s, &p, 0) && (s.len() == p.len() || s[p.len()] == '.')
}

/// Whether a scope names the instrumentation `needle` behind a conventional prefix, with nothing or
/// a `-` suffix behind it.
pub open spec fn conventional_match(
    scope: Seq<char>,
    prefix: Seq<char>,
    needle: Seq<char>,
) -> bool {
    let end = (prefix.len() + needle.len()) as int;
    text::begins_with(scope, prefix) && text::occurs_at(scope, needle, prefix.len() as int) && (
    scope.len() == end || scope[end] == '-')
}

/// Whether a scope names the instrumentation `needle` as one of the SDKs would.
pub open spec fn scope_match(scope: Seq<char>, needle: Seq<char>) -> bool {
    ||| conventional_match(scope, "io.opentelemetry."@, needle)
    ||| conventional_match(scope, "opentelemetry.instrumentation."@, needle)
    ||| conventional_match(scope, "@opentelemetry/instrumentation-"@, needle)
}

fn matches_convention(scope: &Vec<char>, prefix: &str, needle: &Vec<char>) -> (r: bool)
    ensures
        r == conventional_match(scope@, prefix@, needle@),
{
    let p = text::chars_of(prefix);
    if !text::stands_at(scope, &p, 0) {
        return false;
    }
    if !text::stands_at(scope, needle, p.len()) {
        return false;
    }
    assert(p@.len() + needle@.len() <= scope.len());
    let end = p.len() + needle.len();
    scope.len() == end || scope[end] == '-'
}

/// Boundary-aware match against an instrumentation scope name.
pub fn scope_matches(scope: &str, needle: &str) -> (r: bool)
    ensures
        r == scope_match(scope@, needle@),
{
    let s = text::chars_of(scope);
    let n = text::chars_of(needle);
    matches_convention(&s, "io.opentelemetry.", &n) || matches_convention(
        &s,
        "opentelemetry.instrumentation.",
        &n,
    ) || matches_convention(&s, "@opentelemetry/instrumentation-", &n)
}

/// Whether any scope starts with the vendor prefix.
pub open spec fn any_vendor_match(scopes: Seq<Seq<char>>) -> spec_fn(Seq<char>) -> bool {
    |prefix: Seq<char>|
        exists|i: int| 0 <= i < scopes.len() && vendor_match(#[trigger] scopes[i], prefix)
}

/// Whether any scope names the instrumentation.
pub open spec fn any_scope_match(scopes: Seq<Seq<char>>) -> spec_fn(Seq<char>) -> bool {
    |needle: Seq<char>|
        exists|i: int| 0 <= i < scopes.len() && scope_match(#[trigger] scopes[i], needle)
}

/// The framework that instrumentation scopes tell: by vendor prefix first, then by convention.
pub open spec fn framework_of_scopes(scopes: Seq<Seq<char>>) -> Option<Framework> {
    match first_framework(vendor_scope_prefixes(), any_vendor_match(scopes)) {
        Some(f) => Some(f),
        None => first_framework(scope_needles(), any_scope_match(scopes)),
    }
}

/// The framework that a service name tells.
pub open spec fn framework_of_service(service: Seq<char>) -> Option<Framework> {
    first_framework(
        service_name_needles(),
        |needle: Seq<char>| text::occurs(text::lower(service), needle),
    )
}

impl Language {
    /// The namespace hints of the language, most specific framework first.
    pub fn rules(self) -> (r: Vec<(Framework, Hint)>)
        ensures
            r@.len() == namespace_hints(self).len(),
            forall|i: int|
                0 <= i < r@.len() ==> (#[trigger] r@[i]).0 == namespace_hints(self)[i].0
                    && r@[i].1@ == namespace_hints(self)[i].1,
    {
        match self {
            Language::Java => vec![
                (Framework::JavaHelidonMp, Hint::Substring("io.helidon.microprofile")),
                (Framework::JavaHelidonSe, Hint::Substring("io.helidon")),
                (Framework::JavaQuarkusReactive, Hint::Substring("io.quarkus.hibernate.reactive")),
                (Framework::JavaQuarkusReactive, Hint::Substring("io.quarkus.panache.reactive")),
                (Framework::JavaQuarkusReactive, Hint::Substring("io.quarkus.reactive")),
                (Framework::JavaQuarkusReactive, Hint::Substring("org.hibernate.reactive")),
                (Framework::JavaQuarkusReactive, Hint::Substring("io.smallrye.mutiny")),
                (Framework::JavaQuarkus, Hint::Substring("io.quarkus.hibernate.orm")),
                (Framework::JavaQuarkus, Hint::Substring("io.quarkus.panache.common")),
                (Framework::JavaQuarkus, Hint::Substring("io.quarkus")),
                (Framework::JavaWebFlux, Hint::Substring("org.springframework.web.reactive")),
                (Framework::JavaWebFlux, Hint::Substring("reactor.core")),
                (Framework::JavaJpa, Hint::Substring("jakarta.persistence")),
                (Framework::JavaJpa, Hint::Substring("javax.persistence")),
                (Framework::JavaJpa, Hint::Substring("org.hibernate")),
                (Framework::JavaJpa, Hint::Substring("org.springframework.data.jpa")),
                (Framework::JavaJpa, Hint::LastSegmentEndsWith("Repository")),
                (Framework::JavaJpa, Hint::LastSegmentEndsWith("Repo")),
                (Framework::JavaJpa, Hint::LastSegmentEndsWith("Dao")),
            ],
            Language::Csharp => vec![
                (Framework::CsharpEfCore, Hint::Substring("Microsoft.EntityFrameworkCore")),
                (Framework::CsharpEfCore, Hint::Substring("Pomelo.EntityFrameworkCore")),
            ],
            Language::Python => vec![
                (Framework::PythonDjango, Hint::Substring("django")),
                (Framework::PythonSqlAlchemy, Hint::Substring("sqlalchemy")),
            ],
            Language::Rust => vec![
                (Framework::RustDiesel, Hint::Substring("diesel::")),
                (Framework::RustSeaOrm, Hint::Substring("sea_orm::")),
            ],
            Language::Go => vec![
                (Framework::GoGorm, Hint::Substring("gorm")),
            ],
            Language::JavaScript => vec![
                (Framework::NodePrisma, Hint::Substring("prisma")),
            ],
            Language::Ruby => Vec::new(),
            Language::Php => vec![
                (Framework::PhpLaravelEloquent, Hint::Substring("Illuminate\\Database\\Eloquent")),
                (Framework::PhpLaravelEloquent, Hint::Substring("App\\Models")),
                (Framework::PhpDoctrine, Hint::Substring("Doctrine\\ORM")),
                (Framework::PhpDoctrine, Hint::Substring("Doctrine\\DBAL")),
            ],
        }
    }

    /// The framework tag for the language as a whole.
    pub open spec fn whole(self) -> Framework {
        match self {
            Language::Java => Framework::JavaGeneric,
            Language::Csharp => Framework::CsharpGeneric,
            Language::Python => Framework::PythonGeneric,
            Language::Rust => Framework::RustGeneric,
            Language::Go => Framework::GoGeneric,
            Language::JavaScript => Framework::NodeGeneric,
            Language::Ruby => Framework::RubyGeneric,
            Language::Php => Framework::PhpGeneric,
        }
    }

    /// The framework tag for the language as a whole.
    pub fn generic(self) -> (r: Framework)
        ensures
            r == self.whole(),
    {
        match self {
            Language::Java => Framework::JavaGeneric,
            Language::Csharp => Framework::CsharpGeneric,
            Language::Python => Framework::PythonGeneric,
            Language::Rust => Framework::RustGeneric,
            Language::Go => Framework::GoGeneric,
            Language::JavaScript => Framework::NodeGeneric,
            Language::Ruby => Framework::RubyGeneric,
            Language::Php => Framework::PhpGeneric,
        }
    }
}

fn service_name_rules() -> (r: Vec<(Framework, &'static str)>)
    ensures
        r@.len() == service_name_needles().len(),
        forall|i: int|
            0 <= i < r@.len() ==> (#[trigger] r@[i]).0 == service_name_needles()[i].0 && r@[i].1@
                == service_name_needles()[i].1,
{
    vec![
        (Framework::JavaHelidonMp, "helidon-mp"),
        (Framework::JavaHelidonMp, "helidon.mp"),
        (Framework::JavaHelidonSe, "helidon"),
    ]
}

fn scope_rules() -> (r: Vec<(Framework, &'static str)>)
    ensures
        r@.len() == scope_needles().len(),
        forall|i: int|
            0 <= i < r@.len() ==> (#[trigger] r@[i]).0 == scope_needles()[i].0 && r@[i].1@
                == scope_needles()[i].1,
{
    vec![
        (Framework::JavaQuarkusReactive, "hibernate-reactive"),
        (Framework::JavaQuarkus, "quarkus"),
        (Framework::JavaWebFlux, "spring-webflux"),
        (Framework::JavaWebFlux, "r2dbc"),
        (Framework::JavaJpa, "spring-data"),
        (Framework::JavaJpa, "hibernate"),
        (Framework::JavaHelidonSe, "helidon"),
        (Framework::PythonDjango, "django"),
        (Framework::PythonSqlAlchemy, "sqlalchemy"),
    ]
}

fn vendor_scope_rules() -> (r: Vec<(Framework, &'static str)>)
    ensures
        r@.len() == vendor_scope_prefixes().len(),
        forall|i: int|
            0 <= i < r@.len() ==> (#[trigger] r@[i]).0 == vendor_scope_prefixes()[i].0 && r@[i].1@
                == vendor_scope_prefixes()[i].1,
{
    vec![
        (Framework::CsharpEfCore, "OpenTelemetry.Instrumentation.EntityFrameworkCore"),
        (Framework::CsharpEfCore, "Microsoft.EntityFrameworkCore"),
        (Framework::JavaQuarkusReactive, "io.quarkus.hibernate.reactive"),
        (Framework::JavaQuarkusReactive, "io.quarkus.panache.reactive"),
        (Framework::JavaQuarkusReactive, "io.quarkus.reactive"),
        (Framework::JavaQuarkus, "io.quarkus"),
        (Framework::RubyActiveRecord, "OpenTelemetry::Instrumentation::ActiveRecord"),
        (Framework::PhpDoctrine, "io.opentelemetry.contrib.php.doctrine"),
        (Framework::PhpLaravelEloquent, "io.opentelemetry.contrib.php.laravel"),
    ]
}

/// The framework that a service name tells.
pub fn detect_framework_from_service_name(service: &str) -> (r: Option<Framework>)
    ensures
        r == framework_of_service(service@),
{
    let lower = text::lower_chars(service);
    let rules = service_name_rules();
    let ghost table = service_name_needles();
    let ghost test = |needle: Seq<char>| text::occurs(text::lower(service@), needle);
    let mut k: usize = 0;
    while k < rules.len()
        invariant
            k <= rules@.len(),
            lower@ == text::lower(service@),
            table == service_name_needles(),
            rules@.len() == table.len(),
            forall|i: int|
                0 <= i < rules@.len() ==> (#[trigger] rules@[i]).0 == table[i].0 && rules@[i].1@
                    == table[i].1,
            test == (|needle: Seq<char>| text::occurs(text::lower(service@), needle)),
            forall|i: int| 0 <= i < k ==> !test((#[trigger] table[i]).1),
        decreases rules@.len() - k,
    {
        assert(rules@[k as int].1@ == table[k as int].1);
        if text::found_in(&lower, &text::chars_of(rules[k].1)) {
            proof {
                lemma_first_framework_skip(table, test, k as int);
            }
            return Some(rules[k].0);
        }
        k += 1;
    }
    proof {
        lemma_first_framework_skip(table, test, k as int);
    }
    None
}

fn any_vendor(scopes: &Vec<String>, prefix: &str) -> (r: bool)
    ensures
        r == (any_vendor_match(event::texts(scopes@)))(prefix@),
{
    let ghost all = event::texts(scopes@);
    let mut i: usize = 0;
    while i < scopes.len()
        invariant
            i <= scopes@.len(),
            all == event::texts(scopes@),
            forall|k: int| 0 <= k < i ==> !vendor_match(#[trigger] all[k], prefix@),
        decreases scopes@.len() - i,
    {
        assert(all[i as int] == scopes@[i as int]@);
        if vendor_prefix_matches(scopes[i].as_str(), prefix) {
            return true;
        }
        i += 1;
    }
    false
}

fn any_scope(scopes: &Vec<String>, needle: &str) -> (r: bool)
    ensures
        r == (any_scope_match(event::texts(scopes@)))(needle@),
{
    let ghost all = event::texts(scopes@);
    let mut i: usize = 0;
    while i < scopes.len()
        invariant
            i <= scopes@.len(),
            all == event::texts(scopes@),
            forall|k: int| 0 <= k < i ==> !scope_match(#[trigger] all[k], needle@),
        decreases scopes@.len() - i,
    {
        assert(all[i as int] == scopes@[i as int]@);
        if scope_matches(scopes[i].as_str(), needle) {
            return true;
        }
        i += 1;
    }
    false
}

/// The framework that instrumentation scopes tell.
pub fn detect_framework_from_scopes(scopes: &Vec<String>) -> (r: Option<Framework>)
    ensures
        r == framework_of_scopes(event::texts(scopes@)),
{
    let ghost all = event::texts(scopes@);
    let vendors = vendor_scope_rules();
    let ghost vendor_table = vendor_scope_prefixes();
    let ghost vendor_test = any_vendor_match(all);
    let mut k: usize = 0;
    while k < vendors.len()
        invariant
            k <= vendors@.len(),
            all == event::texts(scopes@),
            vendor_table == vendor_scope_prefixes(),
            vendor_test == any_vendor_match(all),
            vendors@.len() == vendor_table.len(),
            forall|i: int|
                0 <= i < vendors@.len() ==> (#[trigger] vendors@[i]).0 == vendor_table[i].0
                    && vendors@[i].1@ == vendor_table[i].1,
            forall|i: int| 0 <= i < k ==> !vendor_test((#[trigger] vendor_table[i]).1),
        decreases vendors@.len() - k,
    {
        assert(vendors@[k as int].1@ == vendor_table[k as int].1);
        if any_vendor(scopes, vendors[k].1) {
            proof {
                lemma_first_framework_skip(vendor_table, vendor_test, k as int);
            }
            return Some(vendors[k].0);
        }
        k += 1;
    }
    proof {
        lemma_first_framework_skip(vendor_table, vendor_test, k as int);
    }
    let needles = scope_rules();
    let ghost table = scope_needles();
    let ghost test = any_scope_match(all);
    let mut m: usize = 0;
    while m < needles.len()
        invariant
            m <= needles@.len(),
            all == event::texts(scopes@),
            table == scope_needles(),
            test == any_scope_match(all),
            first_framework(vendor_scope_prefixes(), any_vendor_match(all)) is None,
            needles@.len() == table.len(),
            forall|i: int|
                0 <= i < needles@.len() ==> (#[trigger] needles@[i]).0 == table[i].0
                    && needles@[i].1@ == table[i].1,
            forall|i: int| 0 <= i < m ==> !test((#[trigger] table[i]).1),
        decreases needles@.len() - m,
    {
        assert(needles@[m as int].1@ == table[m as int].1);
        if any_scope(scopes, needles[m].1) {
            proof {
                lemma_first_framework_skip(table, test, m as int);
            }
            return Some(needles[m].0);
        }
        m += 1;
    }
    proof {
        lemma_first_framework_skip(table, test, m as int);
    }
    None
}

/// The last position of a character; -1 if it does not stand in the text.
pub open spec fn last_position(t: Seq<char>, c: char) -> int
    decreases t.len(),
{
    if t.len() == 0 {
        -1
    } else if t.last() == c {
        t.len() - 1
    } else {
        last_position(t.drop_last(), c)
    }
}

/// The last component of a `/`-separated path, empty components and `.` left out of account.
pub open spec fn last_component(path: Seq<char>) -> Option<Seq<char>>
    decreases path.len(),
{
    let slash = last_position(path, '/');
    let component = path.skip(slash + 1);
    if component.len() > 0 && component != seq!['.'] {
        Some(component)
    } else if 0 <= slash < path.len() {
        last_component(path.take(slash))
    } else {
        None
    }
}

/// The extension of the file that a path names: what follows the last `.` of its name, unless the
/// name starts there or is `..`.
pub open spec fn extension(path: Seq<char>) -> Option<Seq<char>> {
    match last_component(path) {
        Some(name) => {
            let dot = last_position(name, '.');
            if dot > 0 && name != seq!['.', '.'] {
                Some(name.skip(dot + 1))
            } else {
                None
            }
        },
        None => None,
    }
}

/// The language that a file extension tells, whatever the case of its letters.
pub open spec fn language_of_extension(ext: Seq<char>) -> Option<Language> {
    let e = text::lower(ext);
    if e == "java"@ {
        Some(Language::Java)
    } else if e == "cs"@ {
        Some(Language::Csharp)
    } else if e == "py"@ {
        Some(Language::Python)
    } else if e == "rs"@ {
        Some(Language::Rust)
    } else if e == "go"@ {
        Some(Language::Go)
    } else if e == "rb"@ {
        Some(Language::Ruby)
    } else if e == "php"@ {
        Some(Language::Php)
    } else if e == "js"@ || e == "ts"@ || e == "jsx"@ || e == "tsx"@ || e == "mjs"@ || e == "mts"@
        || e == "cjs"@ || e == "cts"@ {
        Some(Language::JavaScript)
    } else {
        None
    }
}

/// The language that a source file's path tells.
pub open spec fn language_of_path(path: Seq<char>) -> Option<Language> {
    match extension(path) {
        Some(ext) => language_of_extension(ext),
        None => None,
    }
}

fn last_position_of(t: &Vec<char>, to: usize, c: char) -> (r: Option<usize>)
    requires
        to <= t@.len(),
    ensures
        match r {
            Some(i) => i < to && i == last_position(t@.take(to as int), c),
            None => last_position(t@.take(to as int), c) == -1,
        },
{
    let mut i: usize = to;
    while i > 0
        invariant
            i <= to <= t@.len(),
            last_position(t@.take(to as int), c) == last_position(t@.take(i as int), c),
        decreases i,
    {
        assert(t@.take(i as int).drop_last() =~= t@.take(i - 1));
        i -= 1;
        if t[i] == c {
            return Some(i);
        }
    }
    None
}

fn copy_range(t: &Vec<char>, from: usize, to: usize) -> (r: Vec<char>)
    requires
        from <= to <= t@.len(),
    ensures
        r@ == t@.subrange(from as int, to as int),
{
    let mut out: Vec<char> = Vec::new();
    let mut i: usize = from;
    while i < to
        invariant
            from <= i <= to <= t@.len(),
            out@ == t@.subrange(from as int, i as int),
        decreases to - i,
    {
        out.push(t[i]);
        assert(out@ =~= t@.subrange(from as int, i + 1));
        i += 1;
    }
    out
}

fn component_of(path: &Vec<char>) -> (r: Option<Vec<char>>)
    ensures
        match r {
            Some(c) => last_component(path@) == Some(c@),
            None => last_component(path@) is None,
        },
{
    let mut to: usize = path.len();
    assert(path@.take(to as int) =~= path@);
    loop
        invariant
            to <= path@.len(),
            last_component(path@) == last_component(path@.take(to as int)),
        decreases to,
    {
        let ghost prefix = path@.take(to as int);
        match last_position_of(path, to, '/') {
            Some(slash) => {
                let component = copy_range(path, slash + 1, to);
                proof {
                    assert(component@ =~= prefix.skip(slash + 1));
                }
                let blank = component.len() == 0 || (component.len() == 1 && component[0] == '.');
                proof {
                    if component@.len() == 1 && component@[0] == '.' {
                        assert(component@ =~= seq!['.']);
                    }
                    assert(prefix.take(slash as int) =~= path@.take(slash as int));
                }
                if !blank {
                    return Some(component);
                }
                to = slash;
            },
            None => {
                let component = copy_range(path, 0, to);
                proof {
                    assert(component@ =~= prefix.skip(0));
                }
                let blank = component.len() == 0 || (component.len() == 1 && component[0] == '.');
                proof {
                    if component@.len() == 1 && component@[0] == '.' {
                        assert(component@ =~= seq!['.']);
                    }
                }
                if !blank {
                    return Some(component);
                }
                return None;
            },
        }
    }
}

fn extension_of(path: &str) -> (r: Option<Vec<char>>)
    ensures
        match r {
            Some(e) => extension(path@) == Some(e@),
            None => extension(path@) is None,
        },
{
    let p = text::chars_of(path);
    match component_of(&p) {
        Some(name) => {
            let n = name.len();
            proof {
                assert(name@.take(n as int) =~= name@);
            }
            match last_position_of(&name, n, '.') {
                Some(dot) => {
                    let ext = copy_range(&name, dot + 1, n);
                    proof {
                        assert(ext@ =~= name@.skip(dot + 1));
                        if n == 2 && name@[0] == '.' && name@[1] == '.' {
                            assert(name@ =~= seq!['.', '.']);
                        }
                    }
                    if dot == 0 || (n == 2 && name[0] == '.' && name[1] == '.') {
                        None
                    } else {
                        Some(ext)
                    }
                },
                None => None,
            }
        },
        None => None,
    }
}

/// The language that a source file's path tells.
pub fn language_from_filepath(fp: &str) -> (r: Option<Language>)
    ensures
        r == language_of_path(fp@),
{
    let ext = match extension_of(fp) {
        Some(e) => e,
        None => {
            return None;
        },
    };
    let e = text::lowered(&ext);
    if text::spells(&e, "java") {
        Some(Language::Java)
    } else if text::spells(&e, "cs") {
        Some(Language::Csharp)
    } else if text::spells(&e, "py") {
        Some(Language::Python)
    } else if text::spells(&e, "rs") {
        Some(Language::Rust)
    } else if text::spells(&e, "go") {
        Some(Language::Go)
    } else if text::spells(&e, "rb") {
        Some(Language::Ruby)
    } else if text::spells(&e, "php") {
        Some(Language::Php)
    } else if text::spells(&e, "js") || text::spells(&e, "ts") || text::spells(&e, "jsx")
        || text::spells(&e, "tsx") || text::spells(&e, "mjs") || text::spells(&e, "mts")
        || text::spells(&e, "cjs") || text::spells(&e, "cts") {
        Some(Language::JavaScript)
    } else {
        None
    }
}

/// The language that an ecosystem-native scope name tells.
pub open spec fn language_of_scope(scope: Seq<char>) -> Option<Language> {
    if text::begins_with(scope, "github.com/"@) {
        Some(Language::Go)
    } else if text::begins_with(scope, "@opentelemetry/instrumentation-"@) || text::begins_with(
        scope,
        "@prisma/"@,
    ) || text::begins_with(scope, "@nestjs/"@) {
        Some(Language::JavaScript)
    } else if scope == "Microsoft.EntityFrameworkCore"@ || text::begins_with(
        scope,
        "Microsoft.EntityFrameworkCore."@,
    ) || text::begins_with(scope, "OpenTelemetry.Instrumentation."@) {
        Some(Language::Csharp)
    } else if text::begins_with(scope, "OpenTelemetry::Instrumentation::"@) {
        Some(Language::Ruby)
    } else if text::begins_with(scope, "io.opentelemetry.contrib.php."@) {
        Some(Language::Php)
    } else {
        None
    }
}

/// The language that the first telling scope tells.
pub open spec fn language_of_scopes(scopes: Seq<Seq<char>>) -> Option<Language>
    decreases scopes.len(),
{
    if scopes.len() == 0 {
        None
    } else {
        match language_of_scope(scopes[0]) {
            Some(l) => Some(l),
            None => language_of_scopes(scopes.drop_first()),
        }
    }
}

fn scope_language(scope: &str) -> (r: Option<Language>)
    ensures
        r == language_of_scope(scope@),
{
    if text::starts_with(scope, "github.com/") {
        Some(Language::Go)
    } else if text::starts_with(scope, "@opentelemetry/instrumentation-") || text::starts_with(
        scope,
        "@prisma/",
    ) || text::starts_with(scope, "@nestjs/") {
        Some(Language::JavaScript)
    } else if text::same_text(scope, "Microsoft.EntityFrameworkCore") || text::starts_with(
        scope,
        "Microsoft.EntityFrameworkCore.",
    ) || text::starts_with(scope, "OpenTelemetry.Instrumentation.") {
        Some(Language::Csharp)
    } else if text::starts_with(scope, "OpenTelemetry::Instrumentation::") {
        Some(Language::Ruby)
    } else if text::starts_with(scope, "io.opentelemetry.contrib.php.") {
        Some(Language::Php)
    } else {
        None
    }
}

/// The language that ecosystem-native scope names tell.
pub fn language_from_scope_prefix(scopes: &Vec<String>) -> (r: Option<Language>)
    ensures
        r == language_of_scopes(event::texts(scopes@)),
{
    let ghost all = event::texts(scopes@);
    let mut i: usize = 0;
    assert(all.skip(0) =~= all);
    while i < scopes.len()
        invariant
            i <= scopes@.len(),
            all == event::texts(scopes@),
            language_of_scopes(all) == language_of_scopes(all.skip(i as int)),
        decreases scopes@.len() - i,
    {
        proof {
            assert(all.skip(i as int)[0] == scopes@[i as int]@);
            assert(all.skip(i as int).drop_first() =~= all.skip(i + 1));
        }
        if let Some(l) = scope_language(scopes[i].as_str()) {
            return Some(l);
        }
        i += 1;
    }
    None
}

/// The first position from `at` on where `needle` stands; -1 if there is none.
pub open spec fn found_from(t: Seq<char>, needle: Seq<char>, at: int) -> int
    decreases t.len() + 1 - at,
{
    if at < 0 || at > t.len() {
        -1
    } else if text::occurs_at(t, needle, at) {
        at
    } else {
        found_from(t, needle, at + 1)
    }
}

/// Whether a segment may start at a position: at the start, or behind `.`, `\\` or `::`.
pub open spec fn starts_segment(ns: Seq<char>, at: int) -> bool {
    ||| at == 0
    ||| ns[at - 1] == '.'
    ||| ns[at - 1] == '\\'
    ||| (ns[at - 1] == ':' && at >= 2 && ns[at - 2] == ':')
}

/// Whether a segment may end before a position: at the end, before `.`, `\\` or `::`, or behind a
/// `:` that belongs to it.
pub open spec fn ends_segment(ns: Seq<char>, end: int) -> bool {
    ||| end == ns.len()
    ||| ns[end - 1] == ':'
    ||| ns[end] == '.'
    ||| ns[end] == '\\'
    ||| (ns[end] == ':' && end + 1 < ns.len() && ns[end + 1] == ':')
}

/// Whether one of the successive, not overlapping, occurrences of `hint` from `at` on lies between
/// segment boundaries. An empty hint stands in an empty namespace.
pub open spec fn segment_from(ns: Seq<char>, hint: Seq<char>, at: int) -> bool
    decreases ns.len() - at,
{
    let k = found_from(ns, hint, at);
    if hint.len() == 0 {
        ns.len() == 0
    } else if k < at {
        false
    } else if starts_segment(ns, k) && ends_segment(ns, k + hint.len()) {
        true
    } else if k + hint.len() > ns.len() {
        false
    } else {
        segment_from(ns, hint, k + hint.len())
    }
}

fn find_from(t: &Vec<char>, needle: &Vec<char>, from: usize) -> (r: Option<usize>)
    requires
        from <= t@.len(),
    ensures
        match r {
            Some(k) => from <= k && k == found_from(t@, needle@, from as int) && text::occurs_at(
                t@,
                needle@,
                k as int,
            ),
            None => found_from(t@, needle@, from as int) == -1,
        },
{
    let mut at: usize = from;
    while at < t.len()
        invariant
            from <= at <= t@.len(),
            found_from(t@, needle@, from as int) == found_from(t@, needle@, at as int),
        decreases t@.len() - at,
    {
        if text::stands_at(t, needle, at) {
            return Some(at);
        }
        at += 1;
    }
    assert(found_from(t@, needle@, at + 1) == -1);
    if text::stands_at(t, needle, at) {
        Some(at)
    } else {
        None
    }
}

/// Segment-boundary-aware substring match of a namespace. An empty hint can be looked for in an
/// empty namespace only.
///
/// The hint must start at the start of the namespace or right behind a delimiter, and end at its
/// end or right before one. After an occurrence that does not, the search goes on behind it.
pub fn namespace_contains_segment(ns: &str, hint: &str) -> (r: bool)
    requires
        hint@.len() > 0 || ns@.len() == 0,
    ensures
        r == segment_from(ns@, hint@, 0),
{
    let t = text::chars_of(ns);
    let h = text::chars_of(hint);
    if h.len() == 0 {
        return true;
    }
    let n = t.len();
    let mut start: usize = 0;
    loop
        invariant
            t@ == ns@,
            h@ == hint@,
            h@.len() > 0,
            n == t@.len(),
            n == t.len(),
            start <= n,
            segment_from(ns@, hint@, 0) == segment_from(ns@, hint@, start as int),
        decreases n - start,
    {
        let at = match find_from(&t, &h, start) {
            Some(k) => k,
            None => {
                return false;
            },
        };
        let end = at + h.len();
        let leading_ok = at == 0 || t[at - 1] == '.' || t[at - 1] == '\\' || (t[at - 1] == ':' && at
            >= 2 && t[at - 2] == ':');
        let trailing_ok = end == n || t[end - 1] == ':' || t[end] == '.' || t[end] == '\\' || (
        t[end] == ':' && end + 1 < n && t[end + 1] == ':');
        if leading_ok && trailing_ok {
            return true;
        }
        start = end;
    }
}

/// The last position where `::` stands; -1 if it does not.
pub open spec fn last_double_colon(ns: Seq<char>) -> int
    decreases ns.len(),
{
    if ns.len() < 2 {
        -1
    } else if ns[ns.len() - 1] == ':' && ns[ns.len() - 2] == ':' {
        ns.len() - 2
    } else {
        last_double_colon(ns.drop_last())
    }
}

/// Where the last segment of a `.` or `::` separated namespace starts.
pub open spec fn last_segment_start(ns: Seq<char>) -> int {
    let dot = last_position(ns, '.') + 1;
    let colon = if last_double_colon(ns) >= 0 {
        last_double_colon(ns) + 2
    } else {
        0
    };
    if dot > colon {
        dot
    } else {
        colon
    }
}

/// The last segment of a namespace.
pub open spec fn final_segment(ns: Seq<char>) -> Seq<char> {
    ns.skip(last_segment_start(ns))
}

/// The last segment of a `.` or `::` separated namespace; all of it when it has no separator.
pub fn last_segment(ns: &str) -> (r: Vec<char>)
    ensures
        r@ == final_segment(ns@),
{
    let t = text::chars_of(ns);
    let n = t.len();
    proof {
        assert(t@.take(n as int) =~= t@);
    }
    let dot = match last_position_of(&t, n, '.') {
        Some(i) => i + 1,
        None => 0,
    };
    let mut i: usize = n;
    let mut colon: usize = 0;
    while i >= 2
        invariant_except_break
            colon == 0,
        invariant
            n == t@.len(),
            t@ == ns@,
            i <= n,
            last_double_colon(t@) == last_double_colon(t@.take(i as int)),
        ensures
            colon == (if last_double_colon(t@) >= 0 {
                last_double_colon(t@) + 2
            } else {
                0
            }),
            colon <= n,
        decreases i,
    {
        if t[i - 1] == ':' && t[i - 2] == ':' {
            colon = i;
            break;
        }
        assert(t@.take(i as int).drop_last() =~= t@.take(i - 1));
        i -= 1;
    }
    let from = if dot > colon {
        dot
    } else {
        colon
    };
    let r = copy_range(&t, from, n);
    assert(r@ =~= final_segment(ns@));
    r
}

/// Whether a namespace matches a hint.
pub open spec fn hint_match(ns: Seq<char>, hint: HintView) -> bool {
    match hint {
        HintView::Substring(needle) => segment_from(ns, needle, 0),
        HintView::LastSegmentEndsWith(suffix) => text::finishes_with(final_segment(ns), suffix),
    }
}

/// Whether a hint can be held against a namespace: a substring to look for is empty only where the
/// namespace is.
pub open spec fn is_applicable(ns: Seq<char>, hint: HintView) -> bool {
    hint matches HintView::Substring(needle) ==> needle.len() > 0 || ns.len() == 0
}

/// Whether a namespace matches a hint.
pub fn hint_matches(ns: &str, hint: Hint) -> (r: bool)
    requires
        is_applicable(ns@, hint@),
    ensures
        r == hint_match(ns@, hint@),
{
    match hint {
        Hint::Substring(needle) => namespace_contains_segment(ns, needle),
        Hint::LastSegmentEndsWith(suffix) => {
            let s = last_segment(ns);
            let x = text::chars_of(suffix);
            x.len() <= s.len() && text::stands_at(&s, &x, s.len() - x.len())
        },
    }
}

/// The framework that a namespace tells, when the language is known.
pub open spec fn framework_of_namespace(ns: Seq<char>, language: Language) -> Option<Framework> {
    first_framework(namespace_hints(language), |hint: HintView| hint_match(ns, hint))
}

proof fn lemma_hints_apply(ns: Seq<char>, language: Language)
    ensures
        forall|i: int|
            0 <= i < namespace_hints(language).len() ==> is_applicable(
                ns,
                (#[trigger] namespace_hints(language)[i]).1,
            ),
{
    reveal_strlit("io.helidon.microprofile");
    reveal_strlit("io.helidon");
    reveal_strlit("io.quarkus.hibernate.reactive");
    reveal_strlit("io.quarkus.panache.reactive");
    reveal_strlit("io.quarkus.reactive");
    reveal_strlit("org.hibernate.reactive");
    reveal_strlit("io.smallrye.mutiny");
    reveal_strlit("io.quarkus.hibernate.orm");
    reveal_strlit("io.quarkus.panache.common");
    reveal_strlit("io.quarkus");
    reveal_strlit("org.springframework.web.reactive");
    reveal_strlit("reactor.core");
    reveal_strlit("jakarta.persistence");
    reveal_strlit("javax.persistence");
    reveal_strlit("org.hibernate");
    reveal_strlit("org.springframework.data.jpa");
    reveal_strlit("Microsoft.EntityFrameworkCore");
    reveal_strlit("Pomelo.EntityFrameworkCore");
    reveal_strlit("django");
    reveal_strlit("sqlalchemy");
    reveal_strlit("diesel::");
    reveal_strlit("sea_orm::");
    reveal_strlit("gorm");
    reveal_strlit("prisma");
    reveal_strlit("Illuminate\\Database\\Eloquent");
    reveal_strlit("App\\Models");
    reveal_strlit("Doctrine\\ORM");
    reveal_strlit("Doctrine\\DBAL");
}

/// The framework that a namespace tells, when the language is known.
pub fn match_namespace_against_language(ns: &str, language: Language) -> (r: Option<Framework>)
    ensures
        r == framework_of_namespace(ns@, language),
{
    let rules = language.rules();
    let ghost table = namespace_hints(language);
    let ghost test = |hint: HintView| hint_match(ns@, hint);
    proof {
        lemma_hints_apply(ns@, language);
    }
    let mut k: usize = 0;
    while k < rules.len()
        invariant
            k <= rules@.len(),
            table == namespace_hints(language),
            test == (|hint: HintView| hint_match(ns@, hint)),
            rules@.len() == table.len(),
            forall|i: int|
                0 <= i < rules@.len() ==> (#[trigger] rules@[i]).0 == table[i].0 && rules@[i].1@
                    == table[i].1,
            forall|i: int|
                0 <= i < table.len() ==> is_applicable(ns@, (#[trigger] table[i]).1),
            forall|i: int| 0 <= i < k ==> !test((#[trigger] table[i]).1),
        decreases rules@.len() - k,
    {
        assert(rules@[k as int].1@ == table[k as int].1);
        if hint_matches(ns, rules[k].1) {
            proof {
                lemma_first_framework_skip(table, test, k as int);
            }
            return Some(rules[k].0);
        }
        k += 1;
    }
    proof {
        lemma_first_framework_skip(table, test, k as int);
    }
    None
}

/// The framework is that of the first entry of the table that passes the test; none where no entry
/// passes.
pub proof fn law_first_entry_that_passes_tells<A>(
    table: Seq<(Framework, A)>,
    test: spec_fn(A) -> bool,
)
    ensures
        first_framework(table, test) is None <==> forall|i: int|
            0 <= i < table.len() ==> !test((#[trigger] table[i]).1),
        first_framework(table, test) is Some ==> exists|i: int|
            0 <= i < table.len() && test((#[trigger] table[i]).1) && first_framework(table, test)
                == Some(table[i].0) && forall|j: int|
                0 <= j < i ==> !test((#[trigger] table[j]).1),
    decreases table.len(),
{
    if table.len() > 0 {
        let rest = table.drop_first();
        law_first_entry_that_passes_tells(rest, test);
        assert forall|i: int| 0 < i < table.len() implies #[trigger] table[i] == rest[i - 1] by {}
        if test(table[0].1) {
            assert(first_framework(table, test) == Some(table[0].0));
        } else if first_framework(rest, test) is Some {
            let i = choose|i: int|
                0 <= i < rest.len() && test((#[trigger] rest[i]).1) && first_framework(rest, test)
                    == Some(rest[i].0) && forall|j: int|
                    0 <= j < i ==> !test((#[trigger] rest[j]).1);
            assert(table[i + 1] == rest[i]);
            assert forall|j: int| 0 <= j < i + 1 implies !test((#[trigger] table[j]).1) by {
                if j > 0 {
                    assert(rest[j - 1] == table[j]);
                }
            }
        } else {
            assert forall|i: int| 0 <= i < table.len() implies !test((#[trigger] table[i]).1) by {
                if i > 0 {
                    assert(rest[i - 1] == table[i]);
                }
            }
        }
    }
}

/// A vendor prefix stands for the scope itself and for what follows it behind a `.`.
pub proof fn law_vendor_prefix_ends_at_a_dot(scope: Seq<char>, prefix: Seq<char>)
    ensures
        vendor_match(scope, prefix) <==> scope == prefix || (scope.len() > prefix.len()
            && scope.take(prefix.len() as int + 1) == prefix.push('.')),
{
    if vendor_match(scope, prefix) {
        assert(scope.subrange(0, prefix.len() as int) == prefix);
        if scope.len() == prefix.len() {
            assert(scope =~= prefix);
        } else {
            assert(scope.take(prefix.len() as int + 1) =~= prefix.push('.'));
        }
    }
    if scope == prefix {
        assert(scope.subrange(0, prefix.len() as int) =~= prefix);
    }
    if scope.len() > prefix.len() && scope.take(prefix.len() as int + 1) == prefix.push('.') {
        let t = scope.take(prefix.len() as int + 1);
        assert(t[prefix.len() as int] == '.');
        assert forall|k: int| 0 <= k < prefix.len() implies scope[k] == #[trigger] prefix[k] by {
            assert(t[k] == prefix.push('.')[k]);
        }
        assert(scope.subrange(0, prefix.len() as int) =~= prefix);
    }
}

proof fn lemma_conventional(scope: Seq<char>, prefix: Seq<char>, needle: Seq<char>)
    ensures
        conventional_match(scope, prefix, needle) <==> scope == prefix + needle || (scope.len()
            > prefix.len() + needle.len() && scope.take(
            (prefix.len() + needle.len() + 1) as int,
        ) == (prefix + needle).push('-')),
{
    let whole = prefix + needle;
    let end = whole.len() as int;
    if conventional_match(scope, prefix, needle) {
        let (a, b) = (
            scope.subrange(0, prefix.len() as int),
            scope.subrange(prefix.len() as int, end),
        );
        assert(a == prefix && b == needle);
        assert forall|k: int| 0 <= k < end implies scope[k] == #[trigger] whole[k] by {
            if k < prefix.len() {
                assert(a[k] == scope[k]);
            } else {
                assert(b[k - prefix.len()] == scope[k]);
            }
        }
        if scope.len() == end {
            assert(scope =~= whole);
        } else {
            assert(scope.take(end + 1) =~= whole.push('-'));
        }
    }
    if scope == whole || (scope.len() > end && scope.take(end + 1) == whole.push('-')) {
        assert forall|k: int| 0 <= k < end implies scope[k] == #[trigger] whole[k] by {
            if scope != whole {
                assert(scope.take(end + 1)[k] == whole.push('-')[k]);
            }
        }
        if scope != whole {
            assert(scope.take(end + 1)[end] == '-');
        }
        assert(scope.subrange(0, prefix.len() as int) =~= prefix);
        let tail = scope.subrange(prefix.len() as int, end);
        assert forall|k: int| 0 <= k < needle.len() implies tail[k] == #[trigger] needle[k] by {
            assert(whole[prefix.len() + k] == needle[k]);
            assert(scope[prefix.len() + k] == whole[prefix.len() + k]);
        }
        assert(tail =~= needle);
    }
}

/// A scope names an instrumentation behind the prefix that one of the SDKs gives it, and a version
/// or variant may follow behind a `-`.
pub proof fn law_scope_names_the_instrumentation_whole(scope: Seq<char>, needle: Seq<char>)
    ensures
        scope_match(scope, needle) <==> {
            ||| scope == "io.opentelemetry."@ + needle
            ||| scope == "opentelemetry.instrumentation."@ + needle
            ||| scope == "@opentelemetry/instrumentation-"@ + needle
            ||| scope.len() > 17 + needle.len() && scope.take((18 + needle.len()) as int) == (
            "io.opentelemetry."@ + needle).push('-')
            ||| scope.len() > 30 + needle.len() && scope.take((31 + needle.len()) as int) == (
            "opentelemetry.instrumentation."@ + needle).push('-')
            ||| scope.len() > 31 + needle.len() && scope.take((32 + needle.len()) as int) == (
            "@opentelemetry/instrumentation-"@ + needle).push('-')
        },
{
    reveal_strlit("io.opentelemetry.");
    reveal_strlit("opentelemetry.instrumentation.");
    reveal_strlit("@opentelemetry/instrumentation-");
    lemma_conventional(scope, "io.opentelemetry."@, needle);
    lemma_conventional(scope, "opentelemetry.instrumentation."@, needle);
    lemma_conventional(scope, "@opentelemetry/instrumentation-"@, needle);
}

proof fn lemma_last_position(t: Seq<char>, c: char)
    ensures
        -1 <= last_position(t, c) < t.len(),
        last_position(t, c) >= 0 ==> t[last_position(t, c)] == c,
        forall|k: int| last_position(t, c) < k < t.len() ==> #[trigger] t[k] != c,
    decreases t.len(),
{
    if t.len() > 0 && t.last() != c {
        let u = t.drop_last();
        lemma_last_position(u, c);
        assert forall|k: int| last_position(t, c) < k < t.len() implies #[trigger] t[k] != c by {
            if k < u.len() {
                assert(u[k] == t[k]);
            }
        }
    }
}

proof fn lemma_last_position_is(t: Seq<char>, c: char, at: int)
    requires
        -1 <= at < t.len(),
        at >= 0 ==> t[at] == c,
        forall|k: int| at < k < t.len() ==> #[trigger] t[k] != c,
    ensures
        last_position(t, c) == at,
{
    lemma_last_position(t, c);
    let p = last_position(t, c);
    if p < at {
        assert(t[at] != c);
    }
    if p > at {
        assert(t[p] != c);
    }
}

/// The extension is what follows the last `.` of the name of the file, in whatever directory it
/// lies. A name that starts with its only `.` has none, nor has one without a `.`, and a `/` or `/.`
/// behind the name changes nothing.
pub proof fn law_extension_follows_the_last_dot(
    directory: Seq<char>,
    name: Seq<char>,
    ext: Seq<char>,
)
    requires
        name.len() > 0,
        ext.len() > 0,
        forall|k: int| 0 <= k < name.len() ==> #[trigger] name[k] != '/',
        forall|k: int| 0 <= k < ext.len() ==> #[trigger] ext[k] != '/' && ext[k] != '.',
    ensures
        extension(directory + seq!['/'] + (name + seq!['.'] + ext)) == Some(ext),
        extension(name + seq!['.'] + ext) == Some(ext),
        extension(directory + seq!['/'] + (seq!['.'] + ext)) is None,
        extension(directory + seq!['/'] + ext) is None,
        extension(directory.push('/')) == extension(directory),
        extension(directory.push('/').push('.')) == extension(directory),
{
    lemma_dotted_name(name, ext);
    let file = name + seq!['.'] + ext;
    lemma_named(directory, file);
    lemma_extension(directory + seq!['/'] + file, file);
    lemma_alone(file);
    lemma_extension(file, file);
    let hidden = seq!['.'] + ext;
    assert(hidden.len() > 1);
    lemma_named(directory, hidden);
    lemma_extension(directory + seq!['/'] + hidden, hidden);
    lemma_last_position_is(hidden, '.', 0);
    assert(ext != seq!['.']) by {
        if ext == seq!['.'] {
            assert(ext[0] == '.');
        }
    }
    lemma_named(directory, ext);
    lemma_extension(directory + seq!['/'] + ext, ext);
    lemma_last_position_is(ext, '.', -1);
    lemma_behind(directory);
}

proof fn lemma_extension(path: Seq<char>, name: Seq<char>)
    requires
        last_component(path) == Some(name),
    ensures
        extension(path) == (if last_position(name, '.') > 0 && name != seq!['.', '.'] {
            Some(name.skip(last_position(name, '.') + 1))
        } else {
            None
        }),
{
}

proof fn lemma_dotted_name(name: Seq<char>, ext: Seq<char>)
    requires
        name.len() > 0,
        ext.len() > 0,
        forall|k: int| 0 <= k < name.len() ==> #[trigger] name[k] != '/',
        forall|k: int| 0 <= k < ext.len() ==> #[trigger] ext[k] != '/' && ext[k] != '.',
    ensures
        ({
            let file = name + seq!['.'] + ext;
            &&& file.len() > 2
            &&& last_position(file, '.') == name.len()
            &&& file.skip(name.len() as int + 1) == ext
            &&& forall|k: int| 0 <= k < file.len() ==> #[trigger] file[k] != '/'
        }),
{
    let file = name + seq!['.'] + ext;
    lemma_last_position_is(file, '.', name.len() as int);
    assert(file.skip(name.len() as int + 1) =~= ext);
}

proof fn lemma_alone(file: Seq<char>)
    requires
        file.len() > 1,
        forall|k: int| 0 <= k < file.len() ==> #[trigger] file[k] != '/',
    ensures
        last_component(file) == Some(file),
{
    lemma_last_position_is(file, '/', -1);
    assert(file.skip(0) =~= file);
}

proof fn lemma_behind(directory: Seq<char>)
    ensures
        last_component(directory.push('/')) == last_component(directory),
        last_component(directory.push('/').push('.')) == last_component(directory),
{
    let n = directory.len() as int;
    let slashed = directory.push('/');
    lemma_last_position_is(slashed, '/', n);
    assert(slashed.skip(n + 1) =~= Seq::empty());
    assert(slashed.take(n) =~= directory);
    let dotted = slashed.push('.');
    lemma_last_position_is(dotted, '/', n);
    assert(dotted.skip(n + 1) =~= seq!['.']);
    assert(dotted.take(n) =~= directory);
}

proof fn lemma_named(directory: Seq<char>, file: Seq<char>)
    requires
        file.len() > 0,
        file != seq!['.'],
        forall|k: int| 0 <= k < file.len() ==> #[trigger] file[k] != '/',
    ensures
        last_component(directory + seq!['/'] + file) == Some(file),
{
    let path = directory + seq!['/'] + file;
    lemma_last_position_is(path, '/', directory.len() as int);
    assert(path.skip(directory.len() as int + 1) =~= file);
}

/// An extension tells a language whatever the case of its letters, and these are all that do.
pub proof fn law_extensions_tell_their_languages(ext: Seq<char>)
    ensures
        text::lower(ext) == "java"@ ==> language_of_extension(ext) == Some(Language::Java),
        text::lower(ext) == "cs"@ ==> language_of_extension(ext) == Some(Language::Csharp),
        text::lower(ext) == "py"@ ==> language_of_extension(ext) == Some(Language::Python),
        text::lower(ext) == "rs"@ ==> language_of_extension(ext) == Some(Language::Rust),
        text::lower(ext) == "go"@ ==> language_of_extension(ext) == Some(Language::Go),
        text::lower(ext) == "rb"@ ==> language_of_extension(ext) == Some(Language::Ruby),
        text::lower(ext) == "php"@ ==> language_of_extension(ext) == Some(Language::Php),
        text::lower(ext) == "js"@ ==> language_of_extension(ext) == Some(Language::JavaScript),
        text::lower(ext) == "ts"@ ==> language_of_extension(ext) == Some(Language::JavaScript),
        text::lower(ext) == "jsx"@ ==> language_of_extension(ext) == Some(Language::JavaScript),
        text::lower(ext) == "tsx"@ ==> language_of_extension(ext) == Some(Language::JavaScript),
        text::lower(ext) == "mjs"@ ==> language_of_extension(ext) == Some(Language::JavaScript),
        text::lower(ext) == "mts"@ ==> language_of_extension(ext) == Some(Language::JavaScript),
        text::lower(ext) == "cjs"@ ==> language_of_extension(ext) == Some(Language::JavaScript),
        text::lower(ext) == "cts"@ ==> language_of_extension(ext) == Some(Language::JavaScript),
        language_of_extension(ext) is Some ==> {
            ||| text::lower(ext) == "java"@
            ||| text::lower(ext) == "cs"@
            ||| text::lower(ext) == "py"@
            ||| text::lower(ext) == "rs"@
            ||| text::lower(ext) == "go"@
            ||| text::lower(ext) == "rb"@
            ||| text::lower(ext) == "php"@
            ||| text::lower(ext) == "js"@
            ||| text::lower(ext) == "ts"@
            ||| text::lower(ext) == "jsx"@
            ||| text::lower(ext) == "tsx"@
            ||| text::lower(ext) == "mjs"@
            ||| text::lower(ext) == "mts"@
            ||| text::lower(ext) == "cjs"@
            ||| text::lower(ext) == "cts"@
        },
{
    reveal_strlit("java");
    reveal_strlit("cs");
    reveal_strlit("py");
    reveal_strlit("rs");
    reveal_strlit("go");
    reveal_strlit("rb");
    reveal_strlit("php");
    reveal_strlit("js");
    reveal_strlit("ts");
    reveal_strlit("jsx");
    reveal_strlit("tsx");
    reveal_strlit("mjs");
    reveal_strlit("mts");
    reveal_strlit("cjs");
    reveal_strlit("cts");
    assert("java"@.len() == 4);
    assert("cs"@.len() == 2);
    assert("py"@.len() == 2);
    assert("rs"@.len() == 2);
    assert("go"@.len() == 2);
    assert("rb"@.len() == 2);
    assert("php"@.len() == 3);
    assert("js"@.len() == 2);
    assert("ts"@.len() == 2);
    assert("jsx"@.len() == 3);
    assert("tsx"@.len() == 3);
    assert("mjs"@.len() == 3);
    assert("mts"@.len() == 3);
    assert("cjs"@.len() == 3);
    assert("cts"@.len() == 3);
    assert("cs"@[0] != "py"@[0]);
    assert("cs"@[0] != "rs"@[0]);
    assert("cs"@[0] != "go"@[0]);
    assert("cs"@[0] != "rb"@[0]);
    assert("cs"@[0] != "js"@[0]);
    assert("cs"@[0] != "ts"@[0]);
    assert("py"@[0] != "rs"@[0]);
    assert("py"@[0] != "go"@[0]);
    assert("py"@[0] != "rb"@[0]);
    assert("py"@[0] != "js"@[0]);
    assert("py"@[0] != "ts"@[0]);
    assert("rs"@[0] != "go"@[0]);
    assert("rs"@[1] != "rb"@[1]);
    assert("rs"@[0] != "js"@[0]);
    assert("rs"@[0] != "ts"@[0]);
    assert("go"@[0] != "rb"@[0]);
    assert("go"@[0] != "js"@[0]);
    assert("go"@[0] != "ts"@[0]);
    assert("rb"@[0] != "js"@[0]);
    assert("rb"@[0] != "ts"@[0]);
    assert("php"@[0] != "jsx"@[0]);
    assert("php"@[0] != "tsx"@[0]);
    assert("php"@[0] != "mjs"@[0]);
    assert("php"@[0] != "mts"@[0]);
    assert("php"@[0] != "cjs"@[0]);
    assert("php"@[0] != "cts"@[0]);
}

/// What is found of the scopes' languages is what the first telling scope tells.
pub proof fn law_first_telling_scope_tells(scopes: Seq<Seq<char>>)
    ensures
        language_of_scopes(scopes) is None <==> forall|i: int|
            0 <= i < scopes.len() ==> language_of_scope(#[trigger] scopes[i]) is None,
        language_of_scopes(scopes) is Some ==> exists|i: int|
            0 <= i < scopes.len() && language_of_scope(#[trigger] scopes[i]) == language_of_scopes(
                scopes,
            ) && forall|j: int| 0 <= j < i ==> language_of_scope(#[trigger] scopes[j]) is None,
    decreases scopes.len(),
{
    if scopes.len() > 0 {
        let rest = scopes.drop_first();
        law_first_telling_scope_tells(rest);
        assert forall|i: int| 0 < i < scopes.len() implies #[trigger] scopes[i] == rest[i - 1] by {}
        if language_of_scope(scopes[0]) is None {
            if language_of_scopes(rest) is Some {
                let i = choose|i: int|
                    0 <= i < rest.len() && language_of_scope(#[trigger] rest[i])
                        == language_of_scopes(rest) && forall|j: int|
                        0 <= j < i ==> language_of_scope(#[trigger] rest[j]) is None;
                assert(scopes[i + 1] == rest[i]);
                assert forall|j: int| 0 <= j < i + 1 implies language_of_scope(
                    #[trigger] scopes[j],
                ) is None by {
                    if j > 0 {
                        assert(rest[j - 1] == scopes[j]);
                    }
                }
            } else {
                assert forall|i: int| 0 <= i < scopes.len() implies language_of_scope(
                    #[trigger] scopes[i],
                ) is None by {
                    if i > 0 {
                        assert(rest[i - 1] == scopes[i]);
                    }
                }
            }
        }
    }
}

/// A scope of an ecosystem tells its language, whatever follows the prefix.
pub proof fn law_ecosystem_prefixes_tell_their_languages(rest: Seq<char>)
    ensures
        language_of_scope("github.com/"@ + rest) == Some(Language::Go),
        language_of_scope("@opentelemetry/instrumentation-"@ + rest) == Some(Language::JavaScript),
        language_of_scope("@prisma/"@ + rest) == Some(Language::JavaScript),
        language_of_scope("@nestjs/"@ + rest) == Some(Language::JavaScript),
        language_of_scope("Microsoft.EntityFrameworkCore"@) == Some(Language::Csharp),
        language_of_scope("Microsoft.EntityFrameworkCore."@ + rest) == Some(Language::Csharp),
        language_of_scope("OpenTelemetry.Instrumentation."@ + rest) == Some(Language::Csharp),
        language_of_scope("OpenTelemetry::Instrumentation::"@ + rest) == Some(Language::Ruby),
        language_of_scope("io.opentelemetry.contrib.php."@ + rest) == Some(Language::Php),
{
    reveal_strlit("github.com/");
    reveal_strlit("@opentelemetry/instrumentation-");
    reveal_strlit("@prisma/");
    reveal_strlit("@nestjs/");
    reveal_strlit("Microsoft.EntityFrameworkCore");
    reveal_strlit("Microsoft.EntityFrameworkCore.");
    reveal_strlit("OpenTelemetry.Instrumentation.");
    reveal_strlit("OpenTelemetry::Instrumentation::");
    reveal_strlit("io.opentelemetry.contrib.php.");
    let scopes = (
        "github.com/"@ + rest,
        "@opentelemetry/instrumentation-"@ + rest,
        "@prisma/"@ + rest,
        "@nestjs/"@ + rest,
        "Microsoft.EntityFrameworkCore."@ + rest,
        "OpenTelemetry.Instrumentation."@ + rest,
        "OpenTelemetry::Instrumentation::"@ + rest,
        "io.opentelemetry.contrib.php."@ + rest,
    );
    lemma_prefixed("github.com/"@, rest);
    lemma_prefixed("@opentelemetry/instrumentation-"@, rest);
    lemma_prefixed("@prisma/"@, rest);
    lemma_prefixed("@nestjs/"@, rest);
    lemma_prefixed("Microsoft.EntityFrameworkCore."@, rest);
    lemma_prefixed("OpenTelemetry.Instrumentation."@, rest);
    lemma_prefixed("OpenTelemetry::Instrumentation::"@, rest);
    lemma_prefixed("io.opentelemetry.contrib.php."@, rest);
    lemma_not_prefixed(scopes.1, "github.com/"@, 0);
    lemma_not_prefixed(scopes.2, "github.com/"@, 0);
    lemma_not_prefixed(scopes.3, "github.com/"@, 0);
    let ef = "Microsoft.EntityFrameworkCore"@;
    lemma_not_prefixed(ef, "github.com/"@, 0);
    lemma_not_prefixed(ef, "@opentelemetry/instrumentation-"@, 0);
    lemma_not_prefixed(ef, "@prisma/"@, 0);
    lemma_not_prefixed(ef, "@nestjs/"@, 0);
    lemma_not_prefixed(scopes.4, "github.com/"@, 0);
    lemma_not_prefixed(scopes.4, "@opentelemetry/instrumentation-"@, 0);
    lemma_not_prefixed(scopes.4, "@prisma/"@, 0);
    lemma_not_prefixed(scopes.4, "@nestjs/"@, 0);
    lemma_not_prefixed(scopes.5, "github.com/"@, 0);
    lemma_not_prefixed(scopes.5, "@opentelemetry/instrumentation-"@, 0);
    lemma_not_prefixed(scopes.5, "@prisma/"@, 0);
    lemma_not_prefixed(scopes.5, "@nestjs/"@, 0);
    lemma_not_prefixed(scopes.6, "github.com/"@, 0);
    lemma_not_prefixed(scopes.6, "@opentelemetry/instrumentation-"@, 0);
    lemma_not_prefixed(scopes.6, "@prisma/"@, 0);
    lemma_not_prefixed(scopes.6, "@nestjs/"@, 0);
    lemma_not_prefixed(scopes.6, "Microsoft.EntityFrameworkCore."@, 0);
    lemma_not_prefixed(scopes.6, "OpenTelemetry.Instrumentation."@, 13);
    assert(scopes.6[0] == 'O' && ef[0] == 'M');
    lemma_not_prefixed(scopes.7, "github.com/"@, 0);
    lemma_not_prefixed(scopes.7, "@opentelemetry/instrumentation-"@, 0);
    lemma_not_prefixed(scopes.7, "@prisma/"@, 0);
    lemma_not_prefixed(scopes.7, "@nestjs/"@, 0);
    lemma_not_prefixed(scopes.7, "Microsoft.EntityFrameworkCore."@, 0);
    lemma_not_prefixed(scopes.7, "OpenTelemetry.Instrumentation."@, 0);
    lemma_not_prefixed(scopes.7, "OpenTelemetry::Instrumentation::"@, 0);
    assert(scopes.7[0] == 'i');
}

proof fn lemma_prefixed(prefix: Seq<char>, rest: Seq<char>)
    ensures
        text::begins_with(prefix + rest, prefix),
{
    assert((prefix + rest).subrange(0, prefix.len() as int) =~= prefix);
}

proof fn lemma_not_prefixed(t: Seq<char>, prefix: Seq<char>, k: int)
    requires
        0 <= k < prefix.len(),
        k < t.len(),
        t[k] != prefix[k],
    ensures
        !text::begins_with(t, prefix),
{
    if text::begins_with(t, prefix) {
        assert(t.subrange(0, prefix.len() as int)[k] == t[k]);
    }
}

proof fn lemma_found_from(t: Seq<char>, needle: Seq<char>, at: int)
    requires
        0 <= at <= t.len() + 1,
    ensures
        ({
            let k = found_from(t, needle, at);
            &&& k == -1 || at <= k
            &&& k >= 0 ==> text::occurs_at(t, needle, k)
            &&& forall|j: int|
                at <= j && (k < 0 || j < k) ==> !(#[trigger] text::occurs_at(t, needle, j))
        }),
    decreases t.len() + 1 - at,
{
    if at <= t.len() && !text::occurs_at(t, needle, at) {
        lemma_found_from(t, needle, at + 1);
    }
}

proof fn lemma_segment(ns: Seq<char>, hint: Seq<char>, from: int)
    requires
        hint.len() > 0,
        0 <= from <= ns.len(),
        segment_from(ns, hint, from),
    ensures
        exists|k: int|
            from <= k && #[trigger] text::occurs_at(ns, hint, k) && starts_segment(ns, k)
                && ends_segment(ns, (k + hint.len()) as int),
    decreases ns.len() - from,
{
    lemma_found_from(ns, hint, from);
    let k = found_from(ns, hint, from);
    if starts_segment(ns, k) && ends_segment(ns, (k + hint.len()) as int) {
        assert(text::occurs_at(ns, hint, k));
    } else {
        lemma_segment(ns, hint, (k + hint.len()) as int);
        let m = choose|m: int|
            k + hint.len() <= m && #[trigger] text::occurs_at(ns, hint, m) && starts_segment(ns, m)
                && ends_segment(ns, (m + hint.len()) as int);
        assert(from <= m && text::occurs_at(ns, hint, m));
    }
}

proof fn lemma_segment_met(ns: Seq<char>, hint: Seq<char>, from: int, k: int)
    requires
        hint.len() > 0,
        0 <= from <= k,
        text::occurs_at(ns, hint, k),
        starts_segment(ns, k),
        ends_segment(ns, (k + hint.len()) as int),
        forall|j: int| from <= j < k && #[trigger] text::occurs_at(ns, hint, j) ==> j + hint.len()
            <= k,
    ensures
        segment_from(ns, hint, from),
    decreases ns.len() - from,
{
    lemma_found_from(ns, hint, from);
    let m = found_from(ns, hint, from);
    assert(from <= m <= k);
    if m < k && !(starts_segment(ns, m) && ends_segment(ns, (m + hint.len()) as int)) {
        assert(text::occurs_at(ns, hint, m));
        lemma_segment_met(ns, hint, (m + hint.len()) as int, k);
    }
}

/// A text that a namespace holds between delimiters stands at the start of the namespace or behind a
/// `.`, a `\\` or a `::`, and ends at its end, before one of these, or with a `:` of its own.
pub proof fn law_segments_stand_between_delimiters(ns: Seq<char>, hint: Seq<char>) -> (k: int)
    requires
        hint.len() > 0,
        segment_from(ns, hint, 0),
    ensures
        text::occurs_at(ns, hint, k),
        k == 0 || ns[k - 1] == '.' || ns[k - 1] == '\\' || (k >= 2 && ns[k - 1] == ':' && ns[k - 2]
            == ':'),
        ({
            let end = k + hint.len() as int;
            end == ns.len() || ns[end - 1] == ':' || ns[end] == '.' || ns[end] == '\\' || (end + 1
                < ns.len() && ns[end] == ':' && ns[end + 1] == ':')
        }),
{
    lemma_segment(ns, hint, 0);
    choose|k: int|
        0 <= k && #[trigger] text::occurs_at(ns, hint, k) && starts_segment(ns, k) && ends_segment(
            ns,
            (k + hint.len()) as int,
        )
}

/// A text that stands so in a namespace is found, unless an earlier occurrence of it overlaps.
pub proof fn law_segments_are_found(ns: Seq<char>, hint: Seq<char>, k: int)
    requires
        hint.len() > 0,
        text::occurs_at(ns, hint, k),
        k == 0 || ns[k - 1] == '.' || ns[k - 1] == '\\' || (k >= 2 && ns[k - 1] == ':' && ns[k - 2]
            == ':'),
        ({
            let end = k + hint.len() as int;
            end == ns.len() || ns[end - 1] == ':' || ns[end] == '.' || ns[end] == '\\' || (end + 1
                < ns.len() && ns[end] == ':' && ns[end + 1] == ':')
        }),
        forall|j: int| 0 <= j < k && #[trigger] text::occurs_at(ns, hint, j) ==> j + hint.len() <= k,
    ensures
        segment_from(ns, hint, 0),
{
    lemma_segment_met(ns, hint, 0, k);
}

proof fn lemma_last_double_colon(ns: Seq<char>)
    ensures
        -1 <= last_double_colon(ns) <= ns.len() - 1,
        last_double_colon(ns) >= 0 ==> last_double_colon(ns) + 1 < ns.len() && ns[last_double_colon(
            ns,
        )] == ':' && ns[last_double_colon(ns) + 1] == ':',
        forall|k: int|
            last_double_colon(ns) < k && 0 <= k && k + 1 < ns.len() ==> !(#[trigger] ns[k] == ':'
                && ns[k + 1] == ':'),
    decreases ns.len(),
{
    if ns.len() >= 2 && !(ns[ns.len() - 1] == ':' && ns[ns.len() - 2] == ':') {
        let u = ns.drop_last();
        lemma_last_double_colon(u);
        assert forall|k: int|
            last_double_colon(ns) < k && 0 <= k && k + 1 < ns.len() implies !(#[trigger] ns[k]
            == ':' && ns[k + 1] == ':') by {
            if k + 1 < u.len() {
                assert(u[k] == ns[k] && u[k + 1] == ns[k + 1]);
            }
        }
    }
}

/// The last segment holds no `.` and no `::`, and is the whole namespace or follows one of these.
pub proof fn law_last_segment_follows_the_last_delimiter(ns: Seq<char>)
    ensures
        ({
            let s = final_segment(ns);
            let at = ns.len() - s.len();
            &&& at >= 0
            &&& ns.skip(at) == s
            &&& forall|k: int| 0 <= k < s.len() ==> #[trigger] s[k] != '.'
            &&& forall|k: int|
                0 <= k && k + 1 < s.len() ==> !(#[trigger] s[k] == ':' && s[k + 1] == ':')
            &&& at == 0 || ns[at - 1] == '.' || (at >= 2 && ns[at - 1] == ':' && ns[at - 2] == ':')
        }),
{
    lemma_last_position(ns, '.');
    lemma_last_double_colon(ns);
    let from = last_segment_start(ns);
    let s = final_segment(ns);
    assert(s.len() == ns.len() - from);
    assert forall|k: int| 0 <= k < s.len() implies #[trigger] s[k] != '.' by {
        assert(s[k] == ns[from + k]);
    }
    assert forall|k: int| 0 <= k && k + 1 < s.len() implies !(#[trigger] s[k] == ':' && s[k + 1]
        == ':') by {
        assert(s[k] == ns[from + k] && s[k + 1] == ns[from + k + 1]);
    }
}

/// A service is told by its name in any case: Helidon MP by `helidon-mp` or `helidon.mp`, Helidon SE
/// by `helidon` otherwise.
pub proof fn law_service_names_tell_helidon(service: Seq<char>)
    ensures
        ({
            let name = text::lower(service);
            let mp = text::occurs(name, "helidon-mp"@) || text::occurs(name, "helidon.mp"@);
            framework_of_service(service) == if mp {
                Some(Framework::JavaHelidonMp)
            } else if text::occurs(name, "helidon"@) {
                Some(Framework::JavaHelidonSe)
            } else {
                None
            }
        }),
{
    let name = text::lower(service);
    let test = |needle: Seq<char>| text::occurs(name, needle);
    let table = service_name_needles();
    reveal_with_fuel(first_framework, 4);
    assert(framework_of_service(service) == first_framework(table, test));
    assert(table.drop_first()[0] == table[1]);
    assert(table.drop_first().drop_first()[0] == table[2]);
    assert(table.drop_first().drop_first().drop_first().len() == 0);
}

/// Vendor prefixes tell before conventional names do, and any scope may tell.
pub proof fn law_vendor_prefixes_tell_first(scopes: Seq<Seq<char>>, name: Seq<char>)
    ensures
        any_vendor_match(scopes)(name) <==> exists|i: int|
            0 <= i < scopes.len() && vendor_match(#[trigger] scopes[i], name),
        any_scope_match(scopes)(name) <==> exists|i: int|
            0 <= i < scopes.len() && scope_match(#[trigger] scopes[i], name),
        ({
            let vendor = first_framework(vendor_scope_prefixes(), any_vendor_match(scopes));
            framework_of_scopes(scopes) == if vendor is Some {
                vendor
            } else {
                first_framework(scope_needles(), any_scope_match(scopes))
            }
        }),
{
}

/// A hint on the last segment asks how that segment ends; any other one asks for a segment, or
/// several in a row, of the namespace.
pub proof fn law_hints_ask_for_segments(ns: Seq<char>, name: Seq<char>)
    ensures
        hint_match(ns, HintView::Substring(name)) == segment_from(ns, name, 0),
        hint_match(ns, HintView::LastSegmentEndsWith(name)) <==> exists|start: Seq<char>|
            final_segment(ns) == #[trigger] (start + name),
{
    let s = final_segment(ns);
    if hint_match(ns, HintView::LastSegmentEndsWith(name)) {
        let at = s.len() - name.len();
        let start = s.take(at);
        assert(s.subrange(at, s.len() as int) == name);
        assert(s =~= start + name) by {
            assert forall|k: int| at <= k < s.len() implies s[k] == #[trigger] (start + name)[k] by {
                assert(s.subrange(at, s.len() as int)[k - at] == s[k]);
            }
        }
    }
    if exists|start: Seq<char>| s == #[trigger] (start + name) {
        let start = choose|start: Seq<char>| s == #[trigger] (start + name);
        assert(s.subrange(s.len() - name.len(), s.len() as int) =~= name);
    }
}

/// A Java namespace tells Helidon MP before Helidon SE, reactive Quarkus before Quarkus, then
/// WebFlux, and JPA last.
pub proof fn law_java_namespaces_tell_their_framework(ns: Seq<char>)
    ensures
        ({
            let java_helidon_mp = segment_from(ns, "io.helidon.microprofile"@, 0);
            let java_helidon_se = segment_from(ns, "io.helidon"@, 0);
            let java_quarkus_reactive = segment_from(ns, "io.quarkus.hibernate.reactive"@, 0) || segment_from(ns, "io.quarkus.panache.reactive"@, 0) || segment_from(ns, "io.quarkus.reactive"@, 0) || segment_from(ns, "org.hibernate.reactive"@, 0) || segment_from(ns, "io.smallrye.mutiny"@, 0);
            let java_quarkus = segment_from(ns, "io.quarkus.hibernate.orm"@, 0) || segment_from(ns, "io.quarkus.panache.common"@, 0) || segment_from(ns, "io.quarkus"@, 0);
            let java_web_flux = segment_from(ns, "org.springframework.web.reactive"@, 0) || segment_from(ns, "reactor.core"@, 0);
            let java_jpa = segment_from(ns, "jakarta.persistence"@, 0) || segment_from(ns, "javax.persistence"@, 0) || segment_from(ns, "org.hibernate"@, 0) || segment_from(ns, "org.springframework.data.jpa"@, 0) || text::finishes_with(final_segment(ns), "Repository"@) || text::finishes_with(final_segment(ns), "Repo"@) || text::finishes_with(final_segment(ns), "Dao"@);
            framework_of_namespace(ns, Language::Java) == if java_helidon_mp {
                Some(Framework::JavaHelidonMp)
            } else if java_helidon_se {
                Some(Framework::JavaHelidonSe)
            } else if java_quarkus_reactive {
                Some(Framework::JavaQuarkusReactive)
            } else if java_quarkus {
                Some(Framework::JavaQuarkus)
            } else if java_web_flux {
                Some(Framework::JavaWebFlux)
            } else if java_jpa {
                Some(Framework::JavaJpa)
            } else {
                None
            }
        }),
{
    let table = namespace_hints(Language::Java);
    let test = |hint: HintView| hint_match(ns, hint);
    law_first_entry_that_passes_tells(table, test);
    assert(framework_of_namespace(ns, Language::Java) == first_framework(table, test));
    assert(table.len() == 19);
    assert(table[0] == (Framework::JavaHelidonMp, HintView::Substring("io.helidon.microprofile"@)));
    assert(test(table[0].1) == segment_from(ns, "io.helidon.microprofile"@, 0));
    assert(table[1] == (Framework::JavaHelidonSe, HintView::Substring("io.helidon"@)));
    assert(test(table[1].1) == segment_from(ns, "io.helidon"@, 0));
    assert(table[2] == (Framework::JavaQuarkusReactive, HintView::Substring("io.quarkus.hibernate.reactive"@)));
    assert(test(table[2].1) == segment_from(ns, "io.quarkus.hibernate.reactive"@, 0));
    assert(table[3] == (Framework::JavaQuarkusReactive, HintView::Substring("io.quarkus.panache.reactive"@)));
    assert(test(table[3].1) == segment_from(ns, "io.quarkus.panache.reactive"@, 0));
    assert(table[4] == (Framework::JavaQuarkusReactive, HintView::Substring("io.quarkus.reactive"@)));
    assert(test(table[4].1) == segment_from(ns, "io.quarkus.reactive"@, 0));
    assert(table[5] == (Framework::JavaQuarkusReactive, HintView::Substring("org.hibernate.reactive"@)));
    assert(test(table[5].1) == segment_from(ns, "org.hibernate.reactive"@, 0));
    assert(table[6] == (Framework::JavaQuarkusReactive, HintView::Substring("io.smallrye.mutiny"@)));
    assert(test(table[6].1) == segment_from(ns, "io.smallrye.mutiny"@, 0));
    assert(table[7] == (Framework::JavaQuarkus, HintView::Substring("io.quarkus.hibernate.orm"@)));
    assert(test(table[7].1) == segment_from(ns, "io.quarkus.hibernate.orm"@, 0));
    assert(table[8] == (Framework::JavaQuarkus, HintView::Substring("io.quarkus.panache.common"@)));
    assert(test(table[8].1) == segment_from(ns, "io.quarkus.panache.common"@, 0));
    assert(table[9] == (Framework::JavaQuarkus, HintView::Substring("io.quarkus"@)));
    assert(test(table[9].1) == segment_from(ns, "io.quarkus"@, 0));
    assert(table[10] == (Framework::JavaWebFlux, HintView::Substring("org.springframework.web.reactive"@)));
    assert(test(table[10].1) == segment_from(ns, "org.springframework.web.reactive"@, 0));
    assert(table[11] == (Framework::JavaWebFlux, HintView::Substring("reactor.core"@)));
    assert(test(table[11].1) == segment_from(ns, "reactor.core"@, 0));
    assert(table[12] == (Framework::JavaJpa, HintView::Substring("jakarta.persistence"@)));
    assert(test(table[12].1) == segment_from(ns, "jakarta.persistence"@, 0));
    assert(table[13] == (Framework::JavaJpa, HintView::Substring("javax.persistence"@)));
    assert(test(table[13].1) == segment_from(ns, "javax.persistence"@, 0));
    assert(table[14] == (Framework::JavaJpa, HintView::Substring("org.hibernate"@)));
    assert(test(table[14].1) == segment_from(ns, "org.hibernate"@, 0));
    assert(table[15] == (Framework::JavaJpa, HintView::Substring("org.springframework.data.jpa"@)));
    assert(test(table[15].1) == segment_from(ns, "org.springframework.data.jpa"@, 0));
    assert(table[16] == (Framework::JavaJpa, HintView::LastSegmentEndsWith("Repository"@)));
    assert(test(table[16].1) == text::finishes_with(final_segment(ns), "Repository"@));
    assert(table[17] == (Framework::JavaJpa, HintView::LastSegmentEndsWith("Repo"@)));
    assert(test(table[17].1) == text::finishes_with(final_segment(ns), "Repo"@));
    assert(table[18] == (Framework::JavaJpa, HintView::LastSegmentEndsWith("Dao"@)));
    assert(test(table[18].1) == text::finishes_with(final_segment(ns), "Dao"@));
}

/// A C# namespace tells EF Core by the package of a provider.
pub proof fn law_csharp_namespaces_tell_their_framework(ns: Seq<char>)
    ensures
        ({
            let csharp_ef_core = segment_from(ns, "Microsoft.EntityFrameworkCore"@, 0) || segment_from(ns, "Pomelo.EntityFrameworkCore"@, 0);
            framework_of_namespace(ns, Language::Csharp) == if csharp_ef_core {
                Some(Framework::CsharpEfCore)
            } else {
                None
            }
        }),
{
    let table = namespace_hints(Language::Csharp);
    let test = |hint: HintView| hint_match(ns, hint);
    law_first_entry_that_passes_tells(table, test);
    assert(framework_of_namespace(ns, Language::Csharp) == first_framework(table, test));
    assert(table.len() == 2);
    assert(table[0] == (Framework::CsharpEfCore, HintView::Substring("Microsoft.EntityFrameworkCore"@)));
    assert(test(table[0].1) == segment_from(ns, "Microsoft.EntityFrameworkCore"@, 0));
    assert(table[1] == (Framework::CsharpEfCore, HintView::Substring("Pomelo.EntityFrameworkCore"@)));
    assert(test(table[1].1) == segment_from(ns, "Pomelo.EntityFrameworkCore"@, 0));
}

/// A Python module tells Django before SQLAlchemy.
pub proof fn law_python_namespaces_tell_their_framework(ns: Seq<char>)
    ensures
        ({
            let python_django = segment_from(ns, "django"@, 0);
            let python_sql_alchemy = segment_from(ns, "sqlalchemy"@, 0);
            framework_of_namespace(ns, Language::Python) == if python_django {
                Some(Framework::PythonDjango)
            } else if python_sql_alchemy {
                Some(Framework::PythonSqlAlchemy)
            } else {
                None
            }
        }),
{
    let table = namespace_hints(Language::Python);
    let test = |hint: HintView| hint_match(ns, hint);
    law_first_entry_that_passes_tells(table, test);
    assert(framework_of_namespace(ns, Language::Python) == first_framework(table, test));
    assert(table.len() == 2);
    assert(table[0] == (Framework::PythonDjango, HintView::Substring("django"@)));
    assert(test(table[0].1) == segment_from(ns, "django"@, 0));
    assert(table[1] == (Framework::PythonSqlAlchemy, HintView::Substring("sqlalchemy"@)));
    assert(test(table[1].1) == segment_from(ns, "sqlalchemy"@, 0));
}

/// A Rust path tells Diesel before SeaORM.
pub proof fn law_rust_namespaces_tell_their_framework(ns: Seq<char>)
    ensures
        ({
            let rust_diesel = segment_from(ns, "diesel::"@, 0);
            let rust_sea_orm = segment_from(ns, "sea_orm::"@, 0);
            framework_of_namespace(ns, Language::Rust) == if rust_diesel {
                Some(Framework::RustDiesel)
            } else if rust_sea_orm {
                Some(Framework::RustSeaOrm)
            } else {
                None
            }
        }),
{
    let table = namespace_hints(Language::Rust);
    let test = |hint: HintView| hint_match(ns, hint);
    law_first_entry_that_passes_tells(table, test);
    assert(framework_of_namespace(ns, Language::Rust) == first_framework(table, test));
    assert(table.len() == 2);
    assert(table[0] == (Framework::RustDiesel, HintView::Substring("diesel::"@)));
    assert(test(table[0].1) == segment_from(ns, "diesel::"@, 0));
    assert(table[1] == (Framework::RustSeaOrm, HintView::Substring("sea_orm::"@)));
    assert(test(table[1].1) == segment_from(ns, "sea_orm::"@, 0));
}

/// A Go package tells GORM.
pub proof fn law_go_namespaces_tell_their_framework(ns: Seq<char>)
    ensures
        ({
            let go_gorm = segment_from(ns, "gorm"@, 0);
            framework_of_namespace(ns, Language::Go) == if go_gorm {
                Some(Framework::GoGorm)
            } else {
                None
            }
        }),
{
    let table = namespace_hints(Language::Go);
    let test = |hint: HintView| hint_match(ns, hint);
    law_first_entry_that_passes_tells(table, test);
    assert(framework_of_namespace(ns, Language::Go) == first_framework(table, test));
    assert(table.len() == 1);
    assert(table[0] == (Framework::GoGorm, HintView::Substring("gorm"@)));
    assert(test(table[0].1) == segment_from(ns, "gorm"@, 0));
}

/// A JavaScript module tells Prisma.
pub proof fn law_script_namespaces_tell_their_framework(ns: Seq<char>)
    ensures
        ({
            let node_prisma = segment_from(ns, "prisma"@, 0);
            framework_of_namespace(ns, Language::JavaScript) == if node_prisma {
                Some(Framework::NodePrisma)
            } else {
                None
            }
        }),
{
    let table = namespace_hints(Language::JavaScript);
    let test = |hint: HintView| hint_match(ns, hint);
    law_first_entry_that_passes_tells(table, test);
    assert(framework_of_namespace(ns, Language::JavaScript) == first_framework(table, test));
    assert(table.len() == 1);
    assert(table[0] == (Framework::NodePrisma, HintView::Substring("prisma"@)));
    assert(test(table[0].1) == segment_from(ns, "prisma"@, 0));
}

/// A PHP namespace tells Eloquent before Doctrine.
pub proof fn law_php_namespaces_tell_their_framework(ns: Seq<char>)
    ensures
        ({
            let php_laravel_eloquent = segment_from(ns, "Illuminate\\Database\\Eloquent"@, 0) || segment_from(ns, "App\\Models"@, 0);
            let php_doctrine = segment_from(ns, "Doctrine\\ORM"@, 0) || segment_from(ns, "Doctrine\\DBAL"@, 0);
            framework_of_namespace(ns, Language::Php) == if php_laravel_eloquent {
                Some(Framework::PhpLaravelEloquent)
            } else if php_doctrine {
                Some(Framework::PhpDoctrine)
            } else {
                None
            }
        }),
{
    let table = namespace_hints(Language::Php);
    let test = |hint: HintView| hint_match(ns, hint);
    law_first_entry_that_passes_tells(table, test);
    assert(framework_of_namespace(ns, Language::Php) == first_framework(table, test));
    assert(table.len() == 4);
    assert(table[0] == (Framework::PhpLaravelEloquent, HintView::Substring("Illuminate\\Database\\Eloquent"@)));
    assert(test(table[0].1) == segment_from(ns, "Illuminate\\Database\\Eloquent"@, 0));
    assert(table[1] == (Framework::PhpLaravelEloquent, HintView::Substring("App\\Models"@)));
    assert(test(table[1].1) == segment_from(ns, "App\\Models"@, 0));
    assert(table[2] == (Framework::PhpDoctrine, HintView::Substring("Doctrine\\ORM"@)));
    assert(test(table[2].1) == segment_from(ns, "Doctrine\\ORM"@, 0));
    assert(table[3] == (Framework::PhpDoctrine, HintView::Substring("Doctrine\\DBAL"@)));
    assert(test(table[3].1) == segment_from(ns, "Doctrine\\DBAL"@, 0));
}

/// A vendor scope tells EF Core, reactive Quarkus before Quarkus, Active Record, Doctrine or
/// Eloquent.
pub proof fn law_vendor_scopes_tell_their_framework(scopes: Seq<Seq<char>>)
    ensures
        first_framework(vendor_scope_prefixes(), any_vendor_match(scopes)) == (if any_vendor_match(scopes)("OpenTelemetry.Instrumentation.EntityFrameworkCore"@) || any_vendor_match(scopes)("Microsoft.EntityFrameworkCore"@) {
            Some(Framework::CsharpEfCore)
        } else if any_vendor_match(scopes)("io.quarkus.hibernate.reactive"@) || any_vendor_match(scopes)("io.quarkus.panache.reactive"@) || any_vendor_match(scopes)("io.quarkus.reactive"@) {
            Some(Framework::JavaQuarkusReactive)
        } else if any_vendor_match(scopes)("io.quarkus"@) {
            Some(Framework::JavaQuarkus)
        } else if any_vendor_match(scopes)("OpenTelemetry::Instrumentation::ActiveRecord"@) {
            Some(Framework::RubyActiveRecord)
        } else if any_vendor_match(scopes)("io.opentelemetry.contrib.php.doctrine"@) {
            Some(Framework::PhpDoctrine)
        } else if any_vendor_match(scopes)("io.opentelemetry.contrib.php.laravel"@) {
            Some(Framework::PhpLaravelEloquent)
        } else {
            None
        }),
{
    let table = vendor_scope_prefixes();
    let test = any_vendor_match(scopes);
    law_first_entry_that_passes_tells(table, test);
    assert(table.len() == 9);
    assert(table[0] == (Framework::CsharpEfCore, "OpenTelemetry.Instrumentation.EntityFrameworkCore"@));
    assert(table[1] == (Framework::CsharpEfCore, "Microsoft.EntityFrameworkCore"@));
    assert(table[2] == (Framework::JavaQuarkusReactive, "io.quarkus.hibernate.reactive"@));
    assert(table[3] == (Framework::JavaQuarkusReactive, "io.quarkus.panache.reactive"@));
    assert(table[4] == (Framework::JavaQuarkusReactive, "io.quarkus.reactive"@));
    assert(table[5] == (Framework::JavaQuarkus, "io.quarkus"@));
    assert(table[6] == (Framework::RubyActiveRecord, "OpenTelemetry::Instrumentation::ActiveRecord"@));
    assert(table[7] == (Framework::PhpDoctrine, "io.opentelemetry.contrib.php.doctrine"@));
    assert(table[8] == (Framework::PhpLaravelEloquent, "io.opentelemetry.contrib.php.laravel"@));
}

/// An instrumentation tells the reactive variant before the plain one, and the application framework
/// before the ORM under it.
pub proof fn law_instrumentations_tell_their_framework(scopes: Seq<Seq<char>>)
    ensures
        first_framework(scope_needles(), any_scope_match(scopes)) == (if any_scope_match(scopes)("hibernate-reactive"@) {
            Some(Framework::JavaQuarkusReactive)
        } else if any_scope_match(scopes)("quarkus"@) {
            Some(Framework::JavaQuarkus)
        } else if any_scope_match(scopes)("spring-webflux"@) || any_scope_match(scopes)("r2dbc"@) {
            Some(Framework::JavaWebFlux)
        } else if any_scope_match(scopes)("spring-data"@) || any_scope_match(scopes)("hibernate"@) {
            Some(Framework::JavaJpa)
        } else if any_scope_match(scopes)("helidon"@) {
            Some(Framework::JavaHelidonSe)
        } else if any_scope_match(scopes)("django"@) {
            Some(Framework::PythonDjango)
        } else if any_scope_match(scopes)("sqlalchemy"@) {
            Some(Framework::PythonSqlAlchemy)
        } else {
            None
        }),
{
    let table = scope_needles();
    let test = any_scope_match(scopes);
    law_first_entry_that_passes_tells(table, test);
    assert(table.len() == 9);
    assert(table[0] == (Framework::JavaQuarkusReactive, "hibernate-reactive"@));
    assert(table[1] == (Framework::JavaQuarkus, "quarkus"@));
    assert(table[2] == (Framework::JavaWebFlux, "spring-webflux"@));
    assert(table[3] == (Framework::JavaWebFlux, "r2dbc"@));
    assert(table[4] == (Framework::JavaJpa, "spring-data"@));
    assert(table[5] == (Framework::JavaJpa, "hibernate"@));
    assert(table[6] == (Framework::JavaHelidonSe, "helidon"@));
    assert(table[7] == (Framework::PythonDjango, "django"@));
    assert(table[8] == (Framework::PythonSqlAlchemy, "sqlalchemy"@));
}

} // verus!
