//! The table of fixes: for a type of finding and a framework, a recommendation and, where there is
//! one, the documentation that backs it.

use crate::detect::finding::FindingType;
use crate::detect::suggestions::Framework;
use vstd::prelude::*;

verus! {

pub const N_PLUS_ONE_SQL_JAVA_JPA: &'static str = "Use `JOIN FETCH` on the relationship or annotate the repository method with `@EntityGraph` \
    to load associations in a single query.";

pub const N_PLUS_ONE_SQL_JAVA_JPA_URL: &'static str = "https://docs.jboss.org/hibernate/orm/current/userguide/html_single/Hibernate_User_Guide.html#fetching-strategies-dynamic-fetching";

pub const N_PLUS_ONE_SQL_JAVA_QUARKUS_REACTIVE: &'static str = "Use `Mutiny`'s Hibernate Reactive `Session.fetch()` with `@NamedEntityGraph`, or join the \
    relation in a `Panache` reactive query, to load associations in a single round-trip.";

pub const N_PLUS_ONE_SQL_JAVA_QUARKUS_REACTIVE_URL: &'static str = "https://quarkus.io/guides/hibernate-reactive";

pub const N_PLUS_ONE_SQL_JAVA_QUARKUS: &'static str = "In Quarkus with Hibernate ORM, use a `JOIN FETCH` in your JPQL or `Panache` query, annotate \
    the repository method with `@EntityGraph`, or call \
    `entityManager.unwrap(Session.class).fetchProfile(...)` for a named fetch plan.";

pub const N_PLUS_ONE_SQL_JAVA_QUARKUS_URL: &'static str = "https://quarkus.io/guides/hibernate-orm-panache#fetching-and-loading";

pub const N_PLUS_ONE_SQL_JAVA_HELIDON_MP: &'static str = "Helidon MP entities are JPA-managed under Hibernate. Use `@EntityGraph` on the repository \
    method or JPQL `JOIN FETCH` on the relationship to load associations in a single query.";

pub const N_PLUS_ONE_SQL_JAVA_HELIDON_MP_URL: &'static str = "https://helidon.io/docs/latest/mp/persistence";

pub const N_PLUS_ONE_SQL_JAVA_HELIDON_SE: &'static str = "Replace the per-id loop with a single named Helidon `DbClient` query that performs `JOIN`, \
    or pass a list of ids via the `:ids` JDBC parameter binding. Helidon SE has no JPA layer: \
    the fix happens at the `DbClient` query level.";

pub const N_PLUS_ONE_SQL_JAVA_HELIDON_SE_URL: &'static str = "https://helidon.io/docs/latest/se/dbclient";

pub const N_PLUS_ONE_SQL_CSHARP_EF_CORE: &'static str = "Use `.Include()` (and `.ThenInclude()` for nested relations) to eager-load. Add \
    `.AsSplitQuery()` when `Include` causes Cartesian explosion. Consider `.AsNoTracking()` for \
    read-only queries.";

pub const N_PLUS_ONE_SQL_CSHARP_EF_CORE_URL: &'static str = "https://learn.microsoft.com/en-us/ef/core/querying/related-data/eager";

pub const N_PLUS_ONE_SQL_PYTHON_DJANGO: &'static str = "Use `select_related()` for foreign-key joins or `prefetch_related()` for reverse/M2M \
    relations to eager-load associations in one or two queries instead of N+1.";

pub const N_PLUS_ONE_SQL_PYTHON_DJANGO_URL: &'static str = "https://docs.djangoproject.com/en/5.2/ref/models/querysets/#select-related";

pub const N_PLUS_ONE_SQL_PYTHON_SQL_ALCHEMY: &'static str = "Add `joinedload()` or `subqueryload()` in the query options to eager-load the relationship, \
    or rewrite with an explicit `join()`.";

pub const N_PLUS_ONE_SQL_PYTHON_SQL_ALCHEMY_URL: &'static str = "https://docs.sqlalchemy.org/en/21/orm/queryguide/relationships.html#joined-eager-loading";

pub const N_PLUS_ONE_SQL_RUST_DIESEL: &'static str = "Load associations with Diesel's `belonging_to` + `grouped_by` pattern (two queries instead \
    of N+1), or use `.inner_join()` / `.left_join()` to fetch parent + children in a single \
    query.";

pub const N_PLUS_ONE_SQL_RUST_DIESEL_URL: &'static str = "https://docs.diesel.rs/master/diesel/associations/index.html";

pub const N_PLUS_ONE_SQL_RUST_SEA_ORM: &'static str = "Use `Entity::find().find_with_related(...)` or `.find_also_related(...)` to fetch related \
    entities in a single query, or load with a JOIN via `QuerySelect::join()`.";

pub const N_PLUS_ONE_SQL_RUST_SEA_ORM_URL: &'static str = "https://www.sea-ql.org/SeaORM/docs/relation/select-related/";

pub const N_PLUS_ONE_SQL_GO_GORM: &'static str = "Use `Preload()` or `Joins()` to eager-load the association in a single query instead of N+1 \
    lazy loads.";

pub const N_PLUS_ONE_SQL_GO_GORM_URL: &'static str = "https://gorm.io/docs/preload.html";

pub const N_PLUS_ONE_SQL_GO_GENERIC: &'static str = "Rewrite the per-id loop as a single query with a `JOIN` or `WHERE id IN ($1, $2, ...)`. With \
    `pgx`, use `pgx.NamedArgs` for named parameters or pass an array via `ANY($1::int[])` for \
    bulk lookups.";

pub const N_PLUS_ONE_SQL_GO_GENERIC_URL: &'static str = "https://pkg.go.dev/github.com/jackc/pgx/v5";

pub const N_PLUS_ONE_SQL_NODE_PRISMA: &'static str = "Use `include:{}` for eager loading, or rewrite with a `findMany()` that uses a `WHERE id IN` \
    filter instead of N separate `findUnique()` calls.";

pub const N_PLUS_ONE_SQL_NODE_PRISMA_URL: &'static str = "https://www.prisma.io/docs/orm/prisma-client/queries/relation-queries";

pub const N_PLUS_ONE_SQL_NODE_GENERIC: &'static str = "Rewrite the per-id loop as a single query with a `JOIN` or `WHERE id IN ($1, $2, ...)`. With \
    the `pg` client, use a parameterized query with `ANY($1::int[])`.";

pub const N_PLUS_ONE_SQL_NODE_GENERIC_URL: &'static str = "https://node-postgres.com/features/queries";

pub const N_PLUS_ONE_SQL_RUBY_ACTIVE_RECORD: &'static str = "Eager-load the association with `includes(:assoc)` (or `preload` / `eager_load`) so Active \
    Record loads it in one query instead of one per record.";

pub const N_PLUS_ONE_SQL_RUBY_ACTIVE_RECORD_URL: &'static str = "https://guides.rubyonrails.org/active_record_querying.html#eager-loading-associations";

pub const N_PLUS_ONE_SQL_RUBY_GENERIC: &'static str = "Batch the per-record lookups into a single `where(id: ids)` query, or eager-load the \
    association if an ORM is in use.";

pub const N_PLUS_ONE_SQL_RUBY_GENERIC_URL: &'static str = "https://guides.rubyonrails.org/active_record_querying.html";

pub const N_PLUS_ONE_SQL_PHP_LARAVEL_ELOQUENT: &'static str = "Eager-load the relation with `with('relation')` (or `load(...)` on an already-fetched \
    collection) so Eloquent runs one query instead of one per model. In a query-builder loop, \
    batch with `whereIn('id', $ids)`.";

pub const N_PLUS_ONE_SQL_PHP_LARAVEL_ELOQUENT_URL: &'static str = "https://laravel.com/docs/eloquent-relationships#eager-loading";

pub const N_PLUS_ONE_SQL_PHP_DOCTRINE: &'static str = "Add a DQL fetch-join (`->leftJoin('e.assoc', 'a')->addSelect('a')`) to hydrate the \
    association in one query, or map it `fetch=\"EAGER\"` when it is always needed.";

pub const N_PLUS_ONE_SQL_PHP_DOCTRINE_URL: &'static str = "https://www.doctrine-project.org/projects/doctrine-orm/en/current/reference/dql-doctrine-query-language.html";

pub const N_PLUS_ONE_SQL_PHP_GENERIC: &'static str = "Batch the per-row lookups into one prepared statement with an `IN (...)` list bound through \
    placeholders, instead of one query per row.";

pub const N_PLUS_ONE_SQL_PHP_GENERIC_URL: &'static str = "https://www.php.net/manual/en/pdo.prepared-statements.php";

pub const N_PLUS_ONE_HTTP_JAVA_WEB_FLUX: &'static str = "Replace the sequential `.flatMap()` chain with `Flux.merge()` or `Flux.zip()` for parallel \
    execution, or call a batch endpoint that returns the aggregated result in one round-trip.";

pub const N_PLUS_ONE_HTTP_JAVA_WEB_FLUX_URL: &'static str = "https://docs.spring.io/spring-framework/reference/web/webflux-functional.html";

pub const N_PLUS_ONE_HTTP_JAVA_QUARKUS_REACTIVE: &'static str = "Replace chained `Uni.chain()` / `Multi.onItem().transformToUni()` calls with \
    `Uni.combine().all().unis(...)` for parallel execution, or call a batch endpoint.";

pub const N_PLUS_ONE_HTTP_JAVA_QUARKUS_REACTIVE_URL: &'static str = "https://smallrye.io/smallrye-mutiny/latest/guides/combining-items/";

pub const N_PLUS_ONE_HTTP_JAVA_QUARKUS: &'static str = "Use `CompletableFuture.allOf(...)` on the Quarkus `ManagedExecutor` for parallel calls, or \
    invoke a batch endpoint via the Quarkus REST Client. For repeated reads, add `@CacheResult` \
    on the client method.";

pub const N_PLUS_ONE_HTTP_JAVA_QUARKUS_URL: &'static str = "https://quarkus.io/guides/rest-client-reactive";

pub const N_PLUS_ONE_HTTP_JAVA_HELIDON_MP: &'static str = "Use the MicroProfile Rest Client with `CompletableFuture.allOf(...)` on the \
    `@ManagedExecutorConfig` executor for parallel calls. Or call a batch endpoint that returns \
    the aggregated result in one round-trip.";

pub const N_PLUS_ONE_HTTP_JAVA_HELIDON_MP_URL: &'static str = "https://download.eclipse.org/microprofile/microprofile-rest-client-3.0/microprofile-rest-client-spec-3.0.html";

pub const N_PLUS_ONE_HTTP_JAVA_HELIDON_SE: &'static str = "Fan out concurrent requests with Helidon `WebClient` using `Single.zip(...)` or \
    `Multi.merge(...)`. Or call a batch endpoint that returns the aggregated result in one \
    round-trip.";

pub const N_PLUS_ONE_HTTP_JAVA_HELIDON_SE_URL: &'static str = "https://helidon.io/docs/latest/se/webclient";

pub const N_PLUS_ONE_HTTP_JAVA_GENERIC: &'static str = "Coalesce the calls into a batch endpoint, or cache the per-request results with `Spring`'s \
    `@Cacheable` using a request-scoped cache.";

pub const N_PLUS_ONE_HTTP_JAVA_GENERIC_URL: &'static str = "https://docs.spring.io/spring-framework/reference/integration/cache.html";

pub const N_PLUS_ONE_HTTP_CSHARP_GENERIC: &'static str = "Use `Task.WhenAll` for parallel independent calls, or call a batch endpoint. For repeated \
    identical calls, configure response caching on `HttpClient` via `DelegatingHandler`.";

pub const N_PLUS_ONE_HTTP_CSHARP_GENERIC_URL: &'static str = "https://learn.microsoft.com/en-us/dotnet/api/system.threading.tasks.task.whenall";

pub const N_PLUS_ONE_HTTP_PYTHON_GENERIC: &'static str = "Use `asyncio.gather()` or `concurrent.futures.ThreadPoolExecutor` for parallel independent \
    calls. Switch to a batch endpoint when the calls fan out from the same upstream input.";

pub const N_PLUS_ONE_HTTP_PYTHON_GENERIC_URL: &'static str = "https://docs.python.org/3/library/asyncio-task.html#asyncio.gather";

pub const N_PLUS_ONE_HTTP_RUST_GENERIC: &'static str = "Use `tokio::join!` or `futures::future::join_all` for parallel independent calls. Switch to \
    a batch endpoint when the calls fan out from the same upstream input.";

pub const N_PLUS_ONE_HTTP_RUST_GENERIC_URL: &'static str = "https://docs.rs/tokio/latest/tokio/macro.join.html";

pub const N_PLUS_ONE_HTTP_GO_GENERIC: &'static str = "Use `errgroup.Go` for parallel independent calls, or call a batch endpoint that returns the \
    aggregated result in one round-trip.";

pub const N_PLUS_ONE_HTTP_GO_GENERIC_URL: &'static str = "https://pkg.go.dev/golang.org/x/sync/errgroup";

pub const N_PLUS_ONE_HTTP_NODE_GENERIC: &'static str = "Use `Promise.all` for parallel independent calls, or call a batch endpoint that returns the \
    aggregated result in one round-trip.";

pub const N_PLUS_ONE_HTTP_NODE_GENERIC_URL: &'static str = "https://developer.mozilla.org/en-US/docs/Web/JavaScript/Reference/Global_Objects/Promise/all";

pub const N_PLUS_ONE_HTTP_RUBY_GENERIC: &'static str = "Coalesce the per-item HTTP calls into one batch request, or run them concurrently with a \
    bounded thread pool from `concurrent-ruby`. Cache repeated reads within the request.";

pub const N_PLUS_ONE_HTTP_RUBY_GENERIC_URL: &'static str = "https://github.com/ruby-concurrency/concurrent-ruby";

pub const N_PLUS_ONE_HTTP_PHP_LARAVEL_ELOQUENT: &'static str = "Coalesce the per-item calls into one batch request, or run them concurrently with \
    `Http::pool(...)`. Cache repeated reads within the request.";

pub const N_PLUS_ONE_HTTP_PHP_LARAVEL_ELOQUENT_URL: &'static str = "https://laravel.com/docs/http-client";

pub const N_PLUS_ONE_HTTP_PHP_GENERIC: &'static str = "Coalesce the per-item HTTP calls into one batch request, or run them concurrently (Symfony \
    HttpClient is async by default, or a Guzzle pool / `Promise\\all`). Cache repeated reads \
    within the request.";

pub const N_PLUS_ONE_HTTP_PHP_GENERIC_URL: &'static str = "https://symfony.com/doc/current/http_client.html";

pub const REDUNDANT_SQL_JAVA_JPA: &'static str = "Add `Spring`'s `@Cacheable` on the repository or service method, or share the \
    `EntityManager` within the request via `@Transactional` so `Hibernate`'s first-level cache \
    deduplicates the read.";

pub const REDUNDANT_SQL_JAVA_JPA_URL: &'static str = "https://docs.spring.io/spring-framework/reference/integration/cache.html";

pub const REDUNDANT_SQL_JAVA_QUARKUS_REACTIVE: &'static str = "Use `Quarkus`' `@CacheResult` on the reactive method, or memoize the `Uni` with `Mutiny`'s \
    `.memoize().indefinitely()` to deduplicate within a request.";

pub const REDUNDANT_SQL_JAVA_QUARKUS_REACTIVE_URL: &'static str = "https://quarkus.io/guides/cache";

pub const REDUNDANT_SQL_JAVA_QUARKUS: &'static str = "Add `@CacheResult` on the `@ApplicationScoped` service method (Quarkus cache extension), or \
    scope a `HashMap` on a `@RequestScoped` bean to deduplicate the query within the request.";

pub const REDUNDANT_SQL_JAVA_QUARKUS_URL: &'static str = "https://quarkus.io/guides/cache";

pub const REDUNDANT_SQL_JAVA_GENERIC: &'static str = "Add a service-level cache (`Caffeine`, `Spring Cache`) or deduplicate the query within the \
    request scope.";

pub const REDUNDANT_SQL_JAVA_GENERIC_URL: &'static str = "https://docs.spring.io/spring-framework/reference/integration/cache.html";

pub const REDUNDANT_SQL_CSHARP_EF_CORE: &'static str = "Use `IMemoryCache` from `Microsoft.Extensions.Caching.Memory`, or add EF Core's second-level \
    cache via a community extension. Within a request, scope the `DbContext` so identical reads \
    short-circuit through the change tracker.";

pub const REDUNDANT_SQL_CSHARP_EF_CORE_URL: &'static str = "https://learn.microsoft.com/en-us/aspnet/core/performance/caching/memory";

pub const REDUNDANT_SQL_PYTHON_DJANGO: &'static str = "Cache the queryset result with Django's cache framework (`@cache_page` for views, \
    `cache.get`/`set` for manual memoization), or share the result via a request-local variable \
    to deduplicate within the request.";

pub const REDUNDANT_SQL_PYTHON_DJANGO_URL: &'static str = "https://docs.djangoproject.com/en/5.2/topics/cache/";

pub const REDUNDANT_SQL_PYTHON_SQL_ALCHEMY: &'static str = "Use `dogpile.cache` or a scoped-session memoization pattern to deduplicate identical queries \
    within the request. Share the result via the session's identity map when the same row is \
    loaded twice.";

pub const REDUNDANT_SQL_PYTHON_SQL_ALCHEMY_URL: &'static str = "https://docs.sqlalchemy.org/en/21/orm/session_basics.html#is-the-session-a-cache";

pub const REDUNDANT_SQL_RUST_DIESEL: &'static str = "Cache the result with the `moka` crate, or scope-deduplicate via a request-local `OnceCell` \
    stored in `axum`/`actix-web` extensions.";

pub const REDUNDANT_SQL_RUST_DIESEL_URL: &'static str = "https://docs.rs/moka";

pub const REDUNDANT_SQL_RUST_SEA_ORM: &'static str = "Cache the result with the `moka` crate, or memoize per-request via a `OnceCell` stored in \
    your handler state.";

pub const REDUNDANT_SQL_RUST_SEA_ORM_URL: &'static str = "https://docs.rs/moka";

pub const REDUNDANT_SQL_GO_GORM: &'static str = "Cache the result with `go-cache`, `sync.Map`, or a request-scoped map stored in the context \
    via `context.WithValue`. GORM does not deduplicate reads automatically, the caching layer \
    must be explicit.";

pub const REDUNDANT_SQL_GO_GORM_URL: &'static str = "https://pkg.go.dev/github.com/patrickmn/go-cache";

pub const REDUNDANT_SQL_GO_GENERIC: &'static str = "Cache the result with `go-cache` or a `sync.Map`, or pass a request-scoped map via \
    `context.WithValue` to deduplicate within the request.";

pub const REDUNDANT_SQL_GO_GENERIC_URL: &'static str = "https://pkg.go.dev/github.com/patrickmn/go-cache";

pub const REDUNDANT_SQL_NODE_PRISMA: &'static str = "Wrap queries in a request-scoped `Map` to deduplicate identical reads within the request, or \
    use a `Prisma` client extension that memoizes by query key.";

pub const REDUNDANT_SQL_NODE_PRISMA_URL: &'static str = "https://www.prisma.io/docs/orm/prisma-client/client-extensions";

pub const REDUNDANT_SQL_NODE_GENERIC: &'static str = "Cache the result with `node-cache` or a request-scoped `Map` stored in `Express`/`Fastify` \
    request locals. For concurrent identical queries, use `p-memoize`.";

pub const REDUNDANT_SQL_NODE_GENERIC_URL: &'static str = "https://www.npmjs.com/package/node-cache";

pub const REDUNDANT_SQL_RUBY_ACTIVE_RECORD: &'static str = "Rails wraps each request in an Active Record query cache that dedups identical SELECTs. If \
    it is bypassed, memoize the result within the request with `@value ||= ...`.";

pub const REDUNDANT_SQL_RUBY_ACTIVE_RECORD_URL: &'static str = "https://guides.rubyonrails.org/caching_with_rails.html#sql-caching";

pub const REDUNDANT_SQL_RUBY_GENERIC: &'static str = "Memoize the read within the request with `@value ||= ...`, or rely on the Active Record \
    query cache when running under Rails.";

pub const REDUNDANT_SQL_RUBY_GENERIC_URL: &'static str = "https://guides.rubyonrails.org/caching_with_rails.html#sql-caching";

pub const REDUNDANT_SQL_PHP_LARAVEL_ELOQUENT: &'static str = "Memoize the read within the request (`$this->cached ??= ...`), or cache it with \
    `Cache::remember(...)` when the value is stable across requests.";

pub const REDUNDANT_SQL_PHP_LARAVEL_ELOQUENT_URL: &'static str = "https://laravel.com/docs/cache";

pub const REDUNDANT_SQL_PHP_DOCTRINE: &'static str = "Enable the Doctrine result cache on the query (`->enableResultCache(...)`), or reuse the \
    already-managed entity from the identity map instead of re-querying it within the same \
    request.";

pub const REDUNDANT_SQL_PHP_DOCTRINE_URL: &'static str = "https://www.doctrine-project.org/projects/doctrine-orm/en/current/reference/caching.html";

pub const REDUNDANT_SQL_PHP_GENERIC: &'static str = "Memoize the read within the request (`$cache[$key] ??= ...`), or reuse a shared prepared \
    statement so the driver reuses the plan.";

pub const REDUNDANT_SQL_PHP_GENERIC_URL: &'static str = "https://www.php.net/manual/en/pdo.prepared-statements.php";

pub const REDUNDANT_HTTP_JAVA_GENERIC: &'static str = "Wrap the HTTP client in a request-scoped memoization layer (`Caffeine`, a `HashMap` on a \
    request-scoped bean, or `Spring`'s `@Cacheable` with a request-scoped key) so identical \
    calls return the cached response within the request.";

pub const REDUNDANT_HTTP_JAVA_GENERIC_URL: &'static str = "https://github.com/ben-manes/caffeine";

pub const REDUNDANT_HTTP_CSHARP_EF_CORE: &'static str = "Insert a `DelegatingHandler` on `HttpClient` that memoizes responses by request key (URL + \
    headers) inside `IMemoryCache` for the request's lifetime. Be explicit about the cache key \
    to avoid serving stale data across users.";

pub const REDUNDANT_HTTP_CSHARP_EF_CORE_URL: &'static str = "https://learn.microsoft.com/en-us/aspnet/core/performance/caching/memory";

pub const REDUNDANT_HTTP_CSHARP_GENERIC: &'static str = "Add a `DelegatingHandler` on `HttpClient` that memoizes by request URI inside `IMemoryCache` \
    for the request scope, or share the response via `AsyncLazy<T>` when the duplication is \
    concurrent.";

pub const REDUNDANT_HTTP_CSHARP_GENERIC_URL: &'static str = "https://learn.microsoft.com/en-us/aspnet/core/performance/caching/memory";

pub const REDUNDANT_HTTP_PYTHON_GENERIC: &'static str = "Memoize per-request with `functools.lru_cache` (sync) or an async memoization decorator. For \
    Django, wrap the view with `@cache_page` or share the response via a request-local dict.";

pub const REDUNDANT_HTTP_PYTHON_GENERIC_URL: &'static str = "https://docs.python.org/3/library/functools.html#functools.lru_cache";

pub const REDUNDANT_HTTP_RUST_GENERIC: &'static str = "Memoize per-request with the `moka` crate or a request-local `OnceCell` stored in your \
    handler state. For concurrent duplicates within one handler, share the in-flight future via \
    `futures::future::Shared`.";

pub const REDUNDANT_HTTP_RUST_GENERIC_URL: &'static str = "https://docs.rs/moka";

pub const REDUNDANT_HTTP_GO_GENERIC: &'static str = "Memoize per-request with `singleflight.Do` (for concurrent identical calls) or a `sync.Map` \
    keyed by request URL stored in the context.";

pub const REDUNDANT_HTTP_GO_GENERIC_URL: &'static str = "https://pkg.go.dev/golang.org/x/sync/singleflight";

pub const REDUNDANT_HTTP_NODE_GENERIC: &'static str = "Memoize per-request with `p-memoize` or a `Map` stored in request locals. For concurrent \
    identical calls, share the in-flight `Promise`.";

pub const REDUNDANT_HTTP_NODE_GENERIC_URL: &'static str = "https://www.npmjs.com/package/p-memoize";

pub const REDUNDANT_HTTP_RUBY_GENERIC: &'static str = "Memoize the response per request with `@value ||= ...`, or cache it with \
    `Rails.cache.fetch`. Share the in-flight call when several run concurrently.";

pub const REDUNDANT_HTTP_RUBY_GENERIC_URL: &'static str = "https://guides.rubyonrails.org/caching_with_rails.html";

pub const REDUNDANT_HTTP_PHP_LARAVEL_ELOQUENT: &'static str = "Memoize the response per request (`$this->cached ??= ...`), or cache it with \
    `Cache::remember(...)`. Share the in-flight call when several run concurrently.";

pub const REDUNDANT_HTTP_PHP_LARAVEL_ELOQUENT_URL: &'static str = "https://laravel.com/docs/cache";

pub const REDUNDANT_HTTP_PHP_GENERIC: &'static str = "Memoize the response per request, or cache it in APCu or Redis. Share the in-flight call \
    when several run concurrently.";

pub const SLOW_SQL_JAVA_JPA: &'static str = "Profile the rendered SQL with `EXPLAIN ANALYZE`. Common JPA fixes: add a composite index \
    matching the `WHERE` + `ORDER BY` columns, switch to a DTO projection via `@Query(\"select \
    new ...\")` to avoid hydrating the full entity graph, or paginate with `Slice`/keyset \
    pagination when `OFFSET` grows linearly.";

pub const SLOW_SQL_JAVA_JPA_URL: &'static str = "https://docs.spring.io/spring-data/jpa/reference/jpa/query-methods.html";

pub const SLOW_SQL_JAVA_QUARKUS: &'static str = "Enable `hibernate.generate_statistics` + the slow query log to confirm the offender. Add a \
    composite index, project to a DTO via `Panache`'s `.project(Class)` or a native query, or \
    paginate with `.range(...)` on a keyset-friendly column.";

pub const SLOW_SQL_JAVA_QUARKUS_URL: &'static str = "https://quarkus.io/guides/hibernate-orm-panache";

pub const SLOW_SQL_JAVA_GENERIC: &'static str = "Profile with `EXPLAIN ANALYZE`. Add an index on the columns used in `WHERE` + `ORDER BY` \
    when selectivity justifies it. If the plan is dominated by a nested loop on a large outer, \
    rewrite to push the selective predicate first.";

pub const SLOW_SQL_JAVA_GENERIC_URL: &'static str = "https://www.postgresql.org/docs/current/using-explain.html";

pub const SLOW_SQL_CSHARP_EF_CORE: &'static str = "Inspect the generated SQL via `.ToQueryString()` and `EXPLAIN ANALYZE` it. Add an index via \
    Fluent API (`HasIndex`). For `Include` explosion, switch to `.AsSplitQuery()`. For read-only \
    paths add `.AsNoTracking()` to remove change-tracker overhead.";

pub const SLOW_SQL_CSHARP_EF_CORE_URL: &'static str = "https://learn.microsoft.com/en-us/ef/core/performance/efficient-querying";

pub const SLOW_SQL_CSHARP_GENERIC: &'static str = "Run `EXPLAIN ANALYZE` against the rendered query and add an index when the plan shows a \
    sequential scan over a large table. Prefer parameterized queries so the plan cache stays \
    hot.";

pub const SLOW_SQL_CSHARP_GENERIC_URL: &'static str = "https://www.postgresql.org/docs/current/using-explain.html";

pub const SLOW_SQL_PYTHON_DJANGO: &'static str = "Run `EXPLAIN ANALYZE` on the rendered query (`django-debug-toolbar` or \
    `connection.queries`). Add a `db_index=True` on the model field, or use `.only()`/`.defer()` \
    to limit fetched columns.";

pub const SLOW_SQL_PYTHON_DJANGO_URL: &'static str = "https://docs.djangoproject.com/en/5.2/ref/models/options/#indexes";

pub const SLOW_SQL_PYTHON_SQL_ALCHEMY: &'static str = "Capture the rendered SQL via `echo=True` and `EXPLAIN ANALYZE` it. Add an index via \
    `Index()` in the table metadata, or project with `.with_only_columns()` to reduce \
    transferred data.";

pub const SLOW_SQL_PYTHON_SQL_ALCHEMY_URL: &'static str = "https://docs.sqlalchemy.org/en/21/core/metadata.html#sqlalchemy.schema.Index";

pub const SLOW_SQL_PYTHON_GENERIC: &'static str = "Run `EXPLAIN ANALYZE` on the slow query. Add an index on the `WHERE` + `ORDER BY` columns, \
    or rewrite to push the selective predicate first.";

pub const SLOW_SQL_PYTHON_GENERIC_URL: &'static str = "https://www.postgresql.org/docs/current/using-explain.html";

pub const SLOW_SQL_RUST_DIESEL: &'static str = "Print the rendered SQL with `diesel::debug_query`, `EXPLAIN ANALYZE` it, and add the missing \
    index. For wide rows, use a `.select((col_a, col_b))` projection so postgres can use an \
    index-only scan.";

pub const SLOW_SQL_RUST_DIESEL_URL: &'static str = "https://docs.diesel.rs/master/diesel/fn.debug_query.html";

pub const SLOW_SQL_RUST_SEA_ORM: &'static str = "Capture the query via the SQL logger feature, `EXPLAIN ANALYZE` the output, and add an index \
    when the plan does a sequential scan. Project to a partial model with \
    `.select_only().column(...)` when only a few columns are read.";

pub const SLOW_SQL_RUST_SEA_ORM_URL: &'static str = "https://www.sea-ql.org/SeaORM/docs/index/";

pub const SLOW_SQL_RUST_GENERIC: &'static str = "Run `EXPLAIN ANALYZE` on the slow query. Add a composite index matching the `WHERE` + `ORDER \
    BY` columns, or rewrite to push the selective predicate before any join.";

pub const SLOW_SQL_RUST_GENERIC_URL: &'static str = "https://www.postgresql.org/docs/current/using-explain.html";

pub const SLOW_SQL_GO_GORM: &'static str = "Enable GORM's `Logger` in Info mode, capture the rendered SQL, and `EXPLAIN ANALYZE` it. Add \
    an index via `AutoMigrate` or a raw migration. Use `.Select()` to limit fetched columns.";

pub const SLOW_SQL_GO_GORM_URL: &'static str = "https://gorm.io/docs/performance.html";

pub const SLOW_SQL_GO_GENERIC: &'static str = "Run `EXPLAIN ANALYZE` on the slow query. Add a composite index matching the `WHERE` + `ORDER \
    BY` columns. With `pgx`, use `.QueryRow().Scan()` with only the needed columns.";

pub const SLOW_SQL_GO_GENERIC_URL: &'static str = "https://www.postgresql.org/docs/current/using-explain.html";

pub const SLOW_SQL_NODE_PRISMA: &'static str = "Enable Prisma's query logging, capture the rendered SQL, and `EXPLAIN ANALYZE` it. Add an \
    `@@index` in the `schema.prisma` model. Use `.select()` to limit fetched columns.";

pub const SLOW_SQL_NODE_PRISMA_URL: &'static str = "https://www.prisma.io/docs/orm/prisma-schema/data-model/indexes";

pub const SLOW_SQL_NODE_GENERIC: &'static str = "Run `EXPLAIN ANALYZE` on the slow query. Add a composite index matching the `WHERE` + `ORDER \
    BY` columns.";

pub const SLOW_SQL_NODE_GENERIC_URL: &'static str = "https://www.postgresql.org/docs/current/using-explain.html";

pub const SLOW_SQL_RUBY_ACTIVE_RECORD: &'static str = "Inspect the plan with `.explain` on the relation, then add an index through a migration \
    (`add_index`). Narrow the row with `.select(...)` to fetch only needed columns.";

pub const SLOW_SQL_RUBY_ACTIVE_RECORD_URL: &'static str = "https://guides.rubyonrails.org/active_record_querying.html#running-explain";

pub const SLOW_SQL_RUBY_GENERIC: &'static str = "Run the query through `.explain`, then add a composite index matching the `WHERE` and `ORDER \
    BY` columns via a migration.";

pub const SLOW_SQL_RUBY_GENERIC_URL: &'static str = "https://guides.rubyonrails.org/active_record_querying.html#running-explain";

pub const SLOW_SQL_PHP_LARAVEL_ELOQUENT: &'static str = "Inspect the plan with `EXPLAIN`, add an index through a migration (`$table->index([...])`), \
    and narrow the row with `->select([...])` to fetch only the needed columns.";

pub const SLOW_SQL_PHP_LARAVEL_ELOQUENT_URL: &'static str = "https://laravel.com/docs/migrations#indexes";

pub const SLOW_SQL_PHP_DOCTRINE: &'static str = "Inspect the plan with `EXPLAIN`, then add an index via the mapping (`@ORM\\Index`) or a \
    migration. Fetch only needed fields with a partial DQL `SELECT`.";

pub const SLOW_SQL_PHP_DOCTRINE_URL: &'static str = "https://www.postgresql.org/docs/current/using-explain.html";

pub const SLOW_SQL_PHP_GENERIC: &'static str = "Run the query through `EXPLAIN`, then add a composite index matching the `WHERE` and `ORDER \
    BY` columns.";

pub const SLOW_SQL_PHP_GENERIC_URL: &'static str = "https://www.postgresql.org/docs/current/using-explain.html";

pub const SLOW_HTTP_JAVA_GENERIC: &'static str = "Profile the upstream's own `slow_sql` / `slow_http` findings first (the latency is usually \
    upstream-side). On the client, wrap the call in a `Resilience4j` circuit breaker with a \
    tight timeout, and cache the response when staleness tolerance allows.";

pub const SLOW_HTTP_JAVA_GENERIC_URL: &'static str = "https://resilience4j.readme.io/docs/circuitbreaker";

pub const SLOW_HTTP_CSHARP_GENERIC: &'static str = "Set a tight `HttpClient.Timeout` and wrap calls in a `Polly` retry + circuit breaker. If the \
    latency is structural (slow upstream), cache the response with `IMemoryCache` or move the \
    call off the request hot path via background hosted services.";

pub const SLOW_HTTP_CSHARP_GENERIC_URL: &'static str = "https://learn.microsoft.com/en-us/dotnet/architecture/microservices/implement-resilient-applications/";

pub const SLOW_HTTP_PYTHON_GENERIC: &'static str = "Set a per-request timeout on `httpx` / `aiohttp`, add a `tenacity` retry with exponential \
    backoff, and cache the response with Django cache or `dogpile.cache` when staleness is \
    acceptable.";

pub const SLOW_HTTP_PYTHON_GENERIC_URL: &'static str = "https://docs.python.org/3/library/asyncio-task.html#asyncio.wait_for";

pub const SLOW_HTTP_RUST_GENERIC: &'static str = "Set a per-request timeout on `reqwest` / `hyper` / `surf`, wrap with the `tower` \
    circuit-breaker layer, and cache the response with `moka` when staleness is acceptable.";

pub const SLOW_HTTP_RUST_GENERIC_URL: &'static str = "https://docs.rs/tower";

pub const SLOW_HTTP_GO_GENERIC: &'static str = "Set a per-request timeout via `http.Client.Timeout` or `context.WithTimeout`. Add a circuit \
    breaker (`sony/gobreaker`) and cache the response with `go-cache` when staleness is \
    acceptable.";

pub const SLOW_HTTP_GO_GENERIC_URL: &'static str = "https://pkg.go.dev/github.com/sony/gobreaker";

pub const SLOW_HTTP_NODE_GENERIC: &'static str = "Set a per-request timeout via `AbortController` + `setTimeout`. Add a circuit breaker \
    (`opossum`) and cache the response with `node-cache` when staleness is acceptable.";

pub const SLOW_HTTP_NODE_GENERIC_URL: &'static str = "https://www.npmjs.com/package/opossum";

pub const SLOW_HTTP_RUBY_GENERIC: &'static str = "Set an explicit timeout on the HTTP client (`Net::HTTP#read_timeout`, Faraday \
    `options.timeout`). Add a circuit breaker and cache the response with `Rails.cache` when \
    staleness is acceptable.";

pub const SLOW_HTTP_RUBY_GENERIC_URL: &'static str = "https://lostisland.github.io/faraday/#/customization/request-options";

pub const SLOW_HTTP_PHP_LARAVEL_ELOQUENT: &'static str = "Set an explicit timeout on the client (`Http::timeout(...)`), add retries with backoff \
    (`->retry(...)`), and cache the response when staleness is acceptable.";

pub const SLOW_HTTP_PHP_LARAVEL_ELOQUENT_URL: &'static str = "https://laravel.com/docs/http-client";

pub const SLOW_HTTP_PHP_GENERIC: &'static str = "Set explicit connect and total timeouts on the client (Guzzle `connect_timeout` / `timeout`, \
    or `CURLOPT_TIMEOUT`). Add a circuit breaker and cache the response when staleness is \
    acceptable.";

pub const SLOW_HTTP_PHP_GENERIC_URL: &'static str = "https://www.php.net/manual/en/function.curl-setopt.php";

pub const EXCESSIVE_FANOUT_JAVA_WEB_FLUX: &'static str = "Bound the fan-out width with `Flux.flatMap(concurrency = N)` (default concurrency is \
    unbounded). Add a `Resilience4j` bulkhead so a slow upstream cannot saturate the reactor \
    scheduler.";

pub const EXCESSIVE_FANOUT_JAVA_WEB_FLUX_URL: &'static str = "https://projectreactor.io/docs/core/release/reference/#which-operator";

pub const EXCESSIVE_FANOUT_JAVA_QUARKUS_REACTIVE: &'static str = "Bound the fan-out with `Multi.onItem().transformToUniAndConcatenate()` when ordering \
    matters, or `.transformToUniAndMerge(concurrency = N)` when independent. Add a \
    `Resilience4j` bulkhead on the downstream client.";

pub const EXCESSIVE_FANOUT_JAVA_QUARKUS_REACTIVE_URL: &'static str = "https://smallrye.io/smallrye-mutiny/latest/guides/combining-items/";

pub const EXCESSIVE_FANOUT_JAVA_GENERIC: &'static str = "Replace the fan-out with a single bulk endpoint when the downstream supports it. Otherwise \
    apply the bulkhead pattern (`Resilience4j` or a dedicated thread pool) to bound the blast \
    radius of a slow dependency.";

pub const EXCESSIVE_FANOUT_JAVA_GENERIC_URL: &'static str = "https://resilience4j.readme.io/docs/bulkhead";

pub const EXCESSIVE_FANOUT_CSHARP_GENERIC: &'static str = "Cap parallelism with `Parallel.ForEachAsync(MaxDegreeOfParallelism = N)` or a \
    `SemaphoreSlim`, and prefer a batch endpoint when the upstream offers one. Layer `Polly`'s \
    `RateLimiter` strategy on the `HttpClient` to enforce a hard ceiling (`Polly` v8 subsumes \
    the v7 `Bulkhead`).";

pub const EXCESSIVE_FANOUT_CSHARP_GENERIC_URL: &'static str = "https://www.pollydocs.org/strategies/rate-limiter.html";

pub const EXCESSIVE_FANOUT_PYTHON_GENERIC: &'static str = "Cap parallelism with `asyncio.Semaphore` or \
    `concurrent.futures.ThreadPoolExecutor(max_workers=N)`, and prefer a batch endpoint when the \
    upstream offers one.";

pub const EXCESSIVE_FANOUT_PYTHON_GENERIC_URL: &'static str = "https://docs.python.org/3/library/asyncio-sync.html#asyncio.Semaphore";

pub const EXCESSIVE_FANOUT_RUST_GENERIC: &'static str = "Use `futures::stream::iter(...).buffer_unordered(N)` to cap concurrent requests, or replace \
    the fan-out with a batch endpoint. Layer a `tower::ConcurrencyLimit` on the downstream \
    client to enforce a hard ceiling.";

pub const EXCESSIVE_FANOUT_RUST_GENERIC_URL: &'static str = "https://docs.rs/futures/latest/futures/stream/trait.StreamExt.html#method.buffer_unordered";

pub const EXCESSIVE_FANOUT_GO_GENERIC: &'static str = "Bound goroutine count with a semaphore channel (`make(chan struct{}, N)`) or `errgroup` with \
    `SetLimit(N)`. Prefer a batch endpoint when the downstream supports it.";

pub const EXCESSIVE_FANOUT_GO_GENERIC_URL: &'static str = "https://pkg.go.dev/golang.org/x/sync/errgroup#Group.SetLimit";

pub const EXCESSIVE_FANOUT_NODE_GENERIC: &'static str = "Use `p-limit` to cap concurrency (`const limit = pLimit(N); await Promise.all(urls.map(u => \
    limit(() => fetch(u))))`). Prefer a batch endpoint when the downstream supports it.";

pub const EXCESSIVE_FANOUT_NODE_GENERIC_URL: &'static str = "https://www.npmjs.com/package/p-limit";

pub const EXCESSIVE_FANOUT_RUBY_GENERIC: &'static str = "Cap concurrency with a bounded `Concurrent::FixedThreadPool` instead of unbounded fan-out, \
    or call a batch endpoint when the downstream supports it.";

pub const EXCESSIVE_FANOUT_RUBY_GENERIC_URL: &'static str = "https://github.com/ruby-concurrency/concurrent-ruby";

pub const EXCESSIVE_FANOUT_PHP_LARAVEL_ELOQUENT: &'static str = "Cap concurrency with a bounded `Http::pool(...)` batch instead of unbounded fan-out, or call \
    a batch endpoint when the downstream supports it.";

pub const EXCESSIVE_FANOUT_PHP_LARAVEL_ELOQUENT_URL: &'static str = "https://laravel.com/docs/http-client";

pub const EXCESSIVE_FANOUT_PHP_GENERIC: &'static str = "Cap concurrency with a bounded Guzzle pool (`GuzzleHttp\\Pool` with a concurrency limit) \
    instead of unbounded fan-out, or call a batch endpoint when the downstream supports it.";

pub const EXCESSIVE_FANOUT_PHP_GENERIC_URL: &'static str = "https://symfony.com/doc/current/http_client.html";

pub const CHATTY_SERVICE_JAVA_GENERIC: &'static str = "Coalesce the chatty interactions into a single bulk endpoint, or move the orchestration \
    upstream so the calls happen inside one service. When the chattiness is between services and \
    a bulk endpoint is impossible, add a CQRS-style read model populated asynchronously.";

pub const CHATTY_SERVICE_JAVA_GENERIC_URL: &'static str = "https://martinfowler.com/articles/microservices.html#SmartEndpointsAndDumbPipes";

pub const CHATTY_SERVICE_CSHARP_GENERIC: &'static str = "Combine the calls into a single bulk endpoint, or introduce a gRPC streaming RPC that \
    returns the aggregated payload in one round-trip. As a stopgap, fan-in with `Task.WhenAll` \
    and an `AsyncLazy<T>` per-key cache.";

pub const CHATTY_SERVICE_CSHARP_GENERIC_URL: &'static str = "https://learn.microsoft.com/en-us/aspnet/core/grpc/protobuf";

pub const CHATTY_SERVICE_PYTHON_GENERIC: &'static str = "Coalesce the chatty interactions into a single bulk endpoint, or fan-in with \
    `asyncio.gather` and a per-key cache (Django cache or `dogpile.cache`). Reduce round-trips \
    by moving orchestration upstream.";

pub const CHATTY_SERVICE_PYTHON_GENERIC_URL: &'static str = "https://docs.python.org/3/library/asyncio-task.html#asyncio.gather";

pub const CHATTY_SERVICE_RUST_GENERIC: &'static str = "Coalesce the calls behind a single bulk endpoint, or expose a `tonic` streaming RPC that \
    returns the aggregated payload. As an intermediate, batch with `futures::future::join_all` \
    and a `moka` per-key cache.";

pub const CHATTY_SERVICE_RUST_GENERIC_URL: &'static str = "https://docs.rs/tonic";

pub const CHATTY_SERVICE_GO_GENERIC: &'static str = "Coalesce the chatty interactions into a single bulk endpoint, or fan-in with `errgroup` and \
    a per-key `go-cache`. Reduce round-trips by moving orchestration upstream.";

pub const CHATTY_SERVICE_GO_GENERIC_URL: &'static str = "https://pkg.go.dev/golang.org/x/sync/errgroup";

pub const CHATTY_SERVICE_NODE_GENERIC: &'static str = "Coalesce the chatty interactions into a single bulk endpoint, or fan-in with `Promise.all` \
    and a per-key `Map` cache. For GraphQL, use `DataLoader` to batch and deduplicate.";

pub const CHATTY_SERVICE_NODE_GENERIC_URL: &'static str = "https://www.npmjs.com/package/dataloader";

pub const CHATTY_SERVICE_RUBY_GENERIC: &'static str = "Coalesce the chatty calls into a single bulk endpoint, or batch and deduplicate reads per \
    request with a memoization `Hash`.";

pub const CHATTY_SERVICE_RUBY_GENERIC_URL: &'static str = "https://guides.rubyonrails.org/caching_with_rails.html";

pub const CHATTY_SERVICE_PHP_LARAVEL_ELOQUENT: &'static str = "Coalesce the chatty calls into a single bulk endpoint, or batch and deduplicate reads per \
    request with a memoization array.";

pub const CHATTY_SERVICE_PHP_GENERIC: &'static str = "Coalesce the chatty calls into a single bulk endpoint, or batch and deduplicate reads per \
    request with a memoization array.";

pub const POOL_SATURATION_JAVA_QUARKUS: &'static str = "Raise `quarkus.datasource.jdbc.max-size` only after confirming the root cause: usually slow \
    queries hold connections too long. Profile `slow_sql` findings on the same service first, \
    then size the pool to handle the corrected workload.";

pub const POOL_SATURATION_JAVA_QUARKUS_URL: &'static str = "https://quarkus.io/guides/datasource#jdbc-configuration-reference";

pub const POOL_SATURATION_JAVA_GENERIC: &'static str = "Inspect `slow_sql` findings on the same service: pool saturation is usually a symptom, not \
    the disease. After speeding up the slow queries, raise the `HikariCP` `maximumPoolSize` only \
    if the corrected workload still saturates.";

pub const POOL_SATURATION_JAVA_GENERIC_URL: &'static str = "https://github.com/brettwooldridge/HikariCP/wiki/About-Pool-Sizing";

pub const POOL_SATURATION_CSHARP_EF_CORE: &'static str = "Check `Npgsql` `Max Pool Size` in the connection string and the `DbContext` lifetime (a \
    per-request `DbContext` should release connections to the pool on `Dispose`). Slow queries \
    on the same service usually drive the saturation, fix those first.";

pub const POOL_SATURATION_CSHARP_EF_CORE_URL: &'static str = "https://www.npgsql.org/doc/connection-string-parameters.html";

pub const POOL_SATURATION_CSHARP_GENERIC: &'static str = "Profile the `slow_sql` findings on the same service: pool saturation follows from \
    connections being held during slow work. Raise the pool size only after the slow path is \
    corrected.";

pub const POOL_SATURATION_CSHARP_GENERIC_URL: &'static str = "https://learn.microsoft.com/en-us/sql/connect/ado-net/sql-server-connection-pooling";

pub const POOL_SATURATION_PYTHON_GENERIC: &'static str = "Inspect `slow_sql` findings on the same service: pool saturation usually follows from \
    connections held during slow work. Tune `pool_size` on SQLAlchemy's `create_engine` or \
    Django's `CONN_MAX_AGE` only after the slow path is corrected.";

pub const POOL_SATURATION_PYTHON_GENERIC_URL: &'static str = "https://docs.sqlalchemy.org/en/21/core/engines.html#sqlalchemy.create_engine.params.pool_size";

pub const POOL_SATURATION_RUST_GENERIC: &'static str = "Inspect `slow_sql` findings first: `sqlx` and `deadpool` pools usually saturate because \
    connections are held during slow work. Tune `max_connections` on `PoolOptions` only after \
    the slow queries are addressed.";

pub const POOL_SATURATION_RUST_GENERIC_URL: &'static str = "https://docs.rs/sqlx/latest/sqlx/pool/struct.PoolOptions.html";

pub const POOL_SATURATION_GO_GENERIC: &'static str = "Inspect `slow_sql` findings first: `pgxpool` usually saturates because connections are held \
    during slow work. Tune `MaxConns` on `pgxpool.Config` only after the slow queries are \
    addressed.";

pub const POOL_SATURATION_GO_GENERIC_URL: &'static str = "https://pkg.go.dev/github.com/jackc/pgx/v5/pgxpool#Config";

pub const POOL_SATURATION_NODE_GENERIC: &'static str = "Inspect `slow_sql` findings first: the `pg` `Pool` usually saturates because connections are \
    held during slow work. Tune `max` on `new Pool({ max: N })` only after the slow queries are \
    addressed.";

pub const POOL_SATURATION_NODE_GENERIC_URL: &'static str = "https://node-postgres.com/apis/pool";

pub const POOL_SATURATION_RUBY_GENERIC: &'static str = "Inspect `slow_sql` findings first: the Active Record connection pool usually saturates \
    because connections are held during slow work. Tune `pool:` in `database.yml` only after the \
    slow queries are addressed.";

pub const POOL_SATURATION_RUBY_GENERIC_URL: &'static str = "https://guides.rubyonrails.org/configuring.html#database-pooling";

pub const POOL_SATURATION_PHP_LARAVEL_ELOQUENT: &'static str = "Inspect `slow_sql` findings first. Under PHP-FPM each worker holds one database connection, \
    so saturation usually means connections are held during slow work. Resolve the slow queries, \
    then size `pm.max_children` and the database `max_connections` together.";

pub const POOL_SATURATION_PHP_GENERIC: &'static str = "Under PHP-FPM each worker holds one database connection, so saturation usually means \
    connections held during slow work or too many workers per database. Resolve `slow_sql` \
    findings first, then size `pm.max_children` and the database `max_connections` together.";

pub const SERIALIZED_CALLS_JAVA_WEB_FLUX: &'static str = "Replace the sequential `Mono.flatMap` chain with `Mono.zip(m1, m2, ...)` or \
    `Flux.merge(...)` when the calls are independent. Keep the sequential chain only when one \
    call's output feeds the next.";

pub const SERIALIZED_CALLS_JAVA_WEB_FLUX_URL: &'static str = "https://projectreactor.io/docs/core/release/reference/#which.combining";

pub const SERIALIZED_CALLS_JAVA_QUARKUS_REACTIVE: &'static str = "Switch the sequential `Uni.chain()` to `Uni.combine().all().unis(u1, u2, ...).asTuple()` \
    when the calls do not depend on each other. Drop back to chain only when the next call needs \
    the previous result.";

pub const SERIALIZED_CALLS_JAVA_QUARKUS_REACTIVE_URL: &'static str = "https://smallrye.io/smallrye-mutiny/latest/guides/combining-items/";

pub const SERIALIZED_CALLS_JAVA_GENERIC: &'static str = "Parallelize independent calls with `CompletableFuture.allOf(...)` on the `ManagedExecutor` \
    (Quarkus) or `@Async` (Spring). Keep the calls serial only when one's output feeds the next.";

pub const SERIALIZED_CALLS_JAVA_GENERIC_URL: &'static str = "https://docs.oracle.com/en/java/javase/21/docs/api/java.base/java/util/concurrent/CompletableFuture.html";

pub const SERIALIZED_CALLS_CSHARP_GENERIC: &'static str = "Replace the sequential await chain with `Task.WhenAll(t1, t2, ...)` when the calls do not \
    depend on each other. Use `ValueTask` for completed-synchronously paths to avoid allocating \
    `Task` wrappers.";

pub const SERIALIZED_CALLS_CSHARP_GENERIC_URL: &'static str = "https://learn.microsoft.com/en-us/dotnet/api/system.threading.tasks.task.whenall";

pub const SERIALIZED_CALLS_PYTHON_GENERIC: &'static str = "Replace sequential awaits with `asyncio.gather(t1, t2, ...)` when the calls are independent. \
    For sync code, use `concurrent.futures.ThreadPoolExecutor` to run independent calls in \
    parallel. Keep the sequential form only when one call's output feeds the next.";

pub const SERIALIZED_CALLS_PYTHON_GENERIC_URL: &'static str = "https://docs.python.org/3/library/asyncio-task.html#asyncio.gather";

pub const SERIALIZED_CALLS_RUST_GENERIC: &'static str = "Replace sequential `.await` chains with `tokio::join!(f1, f2, ...)` or \
    `futures::future::join_all(iter)` when the calls are independent. Use `try_join!` when any \
    failure should short-circuit the rest.";

pub const SERIALIZED_CALLS_RUST_GENERIC_URL: &'static str = "https://docs.rs/tokio/latest/tokio/macro.join.html";

pub const SERIALIZED_CALLS_GO_GENERIC: &'static str = "Replace sequential calls with `errgroup.Go` for parallel execution. Keep the sequential form \
    only when one call's output feeds the next.";

pub const SERIALIZED_CALLS_GO_GENERIC_URL: &'static str = "https://pkg.go.dev/golang.org/x/sync/errgroup";

pub const SERIALIZED_CALLS_NODE_GENERIC: &'static str = "Replace sequential awaits with `Promise.all([p1, p2, ...])` when the calls are independent. \
    Keep the sequential form only when one call's output feeds the next.";

pub const SERIALIZED_CALLS_NODE_GENERIC_URL: &'static str = "https://developer.mozilla.org/en-US/docs/Web/JavaScript/Reference/Global_Objects/Promise/all";

pub const SERIALIZED_CALLS_RUBY_GENERIC: &'static str = "Run independent calls concurrently with `Concurrent::Promises.zip(...)` or the async gem. \
    Keep them sequential only when one call's output feeds the next.";

pub const SERIALIZED_CALLS_RUBY_GENERIC_URL: &'static str = "https://github.com/ruby-concurrency/concurrent-ruby";

pub const SERIALIZED_CALLS_PHP_LARAVEL_ELOQUENT: &'static str = "Run independent calls concurrently with `Http::pool(...)` (or Guzzle promises \
    `Promise\\all`). Keep them sequential only when one call's output feeds the next.";

pub const SERIALIZED_CALLS_PHP_LARAVEL_ELOQUENT_URL: &'static str = "https://laravel.com/docs/http-client";

pub const SERIALIZED_CALLS_PHP_GENERIC: &'static str = "Run independent calls concurrently with a Guzzle pool or `Promise\\all`. Keep them \
    sequential only when one call's output feeds the next.";

pub const SERIALIZED_CALLS_PHP_GENERIC_URL: &'static str = "https://symfony.com/doc/current/http_client.html";

/// A recommendation with the documentation that backs it.
#[derive(Debug, Clone, Copy)]
pub struct FixText {
    pub recommendation: &'static str,
    pub reference_url: Option<&'static str>,
}

/// The fix for a type of finding under a framework, where the table has one.
pub open spec fn fix_entry(finding_type: FindingType, framework: Framework) -> Option<FixText> {
    match finding_type {
        FindingType::NPlusOneSql => match framework {
            Framework::JavaJpa => Some(
                FixText { recommendation: N_PLUS_ONE_SQL_JAVA_JPA, reference_url: Some(N_PLUS_ONE_SQL_JAVA_JPA_URL) },
            ),
            Framework::JavaQuarkusReactive => Some(
                FixText { recommendation: N_PLUS_ONE_SQL_JAVA_QUARKUS_REACTIVE, reference_url: Some(N_PLUS_ONE_SQL_JAVA_QUARKUS_REACTIVE_URL) },
            ),
            Framework::JavaQuarkus => Some(
                FixText { recommendation: N_PLUS_ONE_SQL_JAVA_QUARKUS, reference_url: Some(N_PLUS_ONE_SQL_JAVA_QUARKUS_URL) },
            ),
            Framework::JavaHelidonMp => Some(
                FixText { recommendation: N_PLUS_ONE_SQL_JAVA_HELIDON_MP, reference_url: Some(N_PLUS_ONE_SQL_JAVA_HELIDON_MP_URL) },
            ),
            Framework::JavaHelidonSe => Some(
                FixText { recommendation: N_PLUS_ONE_SQL_JAVA_HELIDON_SE, reference_url: Some(N_PLUS_ONE_SQL_JAVA_HELIDON_SE_URL) },
            ),
            Framework::CsharpEfCore => Some(
                FixText { recommendation: N_PLUS_ONE_SQL_CSHARP_EF_CORE, reference_url: Some(N_PLUS_ONE_SQL_CSHARP_EF_CORE_URL) },
            ),
            Framework::PythonDjango => Some(
                FixText { recommendation: N_PLUS_ONE_SQL_PYTHON_DJANGO, reference_url: Some(N_PLUS_ONE_SQL_PYTHON_DJANGO_URL) },
            ),
            Framework::PythonSqlAlchemy => Some(
                FixText { recommendation: N_PLUS_ONE_SQL_PYTHON_SQL_ALCHEMY, reference_url: Some(N_PLUS_ONE_SQL_PYTHON_SQL_ALCHEMY_URL) },
            ),
            Framework::RustDiesel => Some(
                FixText { recommendation: N_PLUS_ONE_SQL_RUST_DIESEL, reference_url: Some(N_PLUS_ONE_SQL_RUST_DIESEL_URL) },
            ),
            Framework::RustSeaOrm => Some(
                FixText { recommendation: N_PLUS_ONE_SQL_RUST_SEA_ORM, reference_url: Some(N_PLUS_ONE_SQL_RUST_SEA_ORM_URL) },
            ),
            Framework::GoGorm => Some(
                FixText { recommendation: N_PLUS_ONE_SQL_GO_GORM, reference_url: Some(N_PLUS_ONE_SQL_GO_GORM_URL) },
            ),
            Framework::GoGeneric => Some(
                FixText { recommendation: N_PLUS_ONE_SQL_GO_GENERIC, reference_url: Some(N_PLUS_ONE_SQL_GO_GENERIC_URL) },
            ),
            Framework::NodePrisma => Some(
                FixText { recommendation: N_PLUS_ONE_SQL_NODE_PRISMA, reference_url: Some(N_PLUS_ONE_SQL_NODE_PRISMA_URL) },
            ),
            Framework::NodeGeneric => Some(
                FixText { recommendation: N_PLUS_ONE_SQL_NODE_GENERIC, reference_url: Some(N_PLUS_ONE_SQL_NODE_GENERIC_URL) },
            ),
            Framework::RubyActiveRecord => Some(
                FixText { recommendation: N_PLUS_ONE_SQL_RUBY_ACTIVE_RECORD, reference_url: Some(N_PLUS_ONE_SQL_RUBY_ACTIVE_RECORD_URL) },
            ),
            Framework::RubyGeneric => Some(
                FixText { recommendation: N_PLUS_ONE_SQL_RUBY_GENERIC, reference_url: Some(N_PLUS_ONE_SQL_RUBY_GENERIC_URL) },
            ),
            Framework::PhpLaravelEloquent => Some(
                FixText { recommendation: N_PLUS_ONE_SQL_PHP_LARAVEL_ELOQUENT, reference_url: Some(N_PLUS_ONE_SQL_PHP_LARAVEL_ELOQUENT_URL) },
            ),
            Framework::PhpDoctrine => Some(
                FixText { recommendation: N_PLUS_ONE_SQL_PHP_DOCTRINE, reference_url: Some(N_PLUS_ONE_SQL_PHP_DOCTRINE_URL) },
            ),
            Framework::PhpGeneric => Some(
                FixText { recommendation: N_PLUS_ONE_SQL_PHP_GENERIC, reference_url: Some(N_PLUS_ONE_SQL_PHP_GENERIC_URL) },
            ),
            _ => None,
        },
        FindingType::NPlusOneHttp => match framework {
            Framework::JavaWebFlux => Some(
                FixText { recommendation: N_PLUS_ONE_HTTP_JAVA_WEB_FLUX, reference_url: Some(N_PLUS_ONE_HTTP_JAVA_WEB_FLUX_URL) },
            ),
            Framework::JavaQuarkusReactive => Some(
                FixText { recommendation: N_PLUS_ONE_HTTP_JAVA_QUARKUS_REACTIVE, reference_url: Some(N_PLUS_ONE_HTTP_JAVA_QUARKUS_REACTIVE_URL) },
            ),
            Framework::JavaQuarkus => Some(
                FixText { recommendation: N_PLUS_ONE_HTTP_JAVA_QUARKUS, reference_url: Some(N_PLUS_ONE_HTTP_JAVA_QUARKUS_URL) },
            ),
            Framework::JavaHelidonMp => Some(
                FixText { recommendation: N_PLUS_ONE_HTTP_JAVA_HELIDON_MP, reference_url: Some(N_PLUS_ONE_HTTP_JAVA_HELIDON_MP_URL) },
            ),
            Framework::JavaHelidonSe => Some(
                FixText { recommendation: N_PLUS_ONE_HTTP_JAVA_HELIDON_SE, reference_url: Some(N_PLUS_ONE_HTTP_JAVA_HELIDON_SE_URL) },
            ),
            Framework::JavaGeneric => Some(
                FixText { recommendation: N_PLUS_ONE_HTTP_JAVA_GENERIC, reference_url: Some(N_PLUS_ONE_HTTP_JAVA_GENERIC_URL) },
            ),
            Framework::CsharpGeneric => Some(
                FixText { recommendation: N_PLUS_ONE_HTTP_CSHARP_GENERIC, reference_url: Some(N_PLUS_ONE_HTTP_CSHARP_GENERIC_URL) },
            ),
            Framework::PythonGeneric => Some(
                FixText { recommendation: N_PLUS_ONE_HTTP_PYTHON_GENERIC, reference_url: Some(N_PLUS_ONE_HTTP_PYTHON_GENERIC_URL) },
            ),
            Framework::RustGeneric => Some(
                FixText { recommendation: N_PLUS_ONE_HTTP_RUST_GENERIC, reference_url: Some(N_PLUS_ONE_HTTP_RUST_GENERIC_URL) },
            ),
            Framework::GoGeneric => Some(
                FixText { recommendation: N_PLUS_ONE_HTTP_GO_GENERIC, reference_url: Some(N_PLUS_ONE_HTTP_GO_GENERIC_URL) },
            ),
            Framework::NodeGeneric => Some(
                FixText { recommendation: N_PLUS_ONE_HTTP_NODE_GENERIC, reference_url: Some(N_PLUS_ONE_HTTP_NODE_GENERIC_URL) },
            ),
            Framework::RubyGeneric => Some(
                FixText { recommendation: N_PLUS_ONE_HTTP_RUBY_GENERIC, reference_url: Some(N_PLUS_ONE_HTTP_RUBY_GENERIC_URL) },
            ),
            Framework::PhpLaravelEloquent => Some(
                FixText { recommendation: N_PLUS_ONE_HTTP_PHP_LARAVEL_ELOQUENT, reference_url: Some(N_PLUS_ONE_HTTP_PHP_LARAVEL_ELOQUENT_URL) },
            ),
            Framework::PhpGeneric => Some(
                FixText { recommendation: N_PLUS_ONE_HTTP_PHP_GENERIC, reference_url: Some(N_PLUS_ONE_HTTP_PHP_GENERIC_URL) },
            ),
            _ => None,
        },
        FindingType::RedundantSql => match framework {
            Framework::JavaJpa => Some(
                FixText { recommendation: REDUNDANT_SQL_JAVA_JPA, reference_url: Some(REDUNDANT_SQL_JAVA_JPA_URL) },
            ),
            Framework::JavaQuarkusReactive => Some(
                FixText { recommendation: REDUNDANT_SQL_JAVA_QUARKUS_REACTIVE, reference_url: Some(REDUNDANT_SQL_JAVA_QUARKUS_REACTIVE_URL) },
            ),
            Framework::JavaQuarkus => Some(
                FixText { recommendation: REDUNDANT_SQL_JAVA_QUARKUS, reference_url: Some(REDUNDANT_SQL_JAVA_QUARKUS_URL) },
            ),
            Framework::JavaGeneric => Some(
                FixText { recommendation: REDUNDANT_SQL_JAVA_GENERIC, reference_url: Some(REDUNDANT_SQL_JAVA_GENERIC_URL) },
            ),
            Framework::CsharpEfCore => Some(
                FixText { recommendation: REDUNDANT_SQL_CSHARP_EF_CORE, reference_url: Some(REDUNDANT_SQL_CSHARP_EF_CORE_URL) },
            ),
            Framework::PythonDjango => Some(
                FixText { recommendation: REDUNDANT_SQL_PYTHON_DJANGO, reference_url: Some(REDUNDANT_SQL_PYTHON_DJANGO_URL) },
            ),
            Framework::PythonSqlAlchemy => Some(
                FixText { recommendation: REDUNDANT_SQL_PYTHON_SQL_ALCHEMY, reference_url: Some(REDUNDANT_SQL_PYTHON_SQL_ALCHEMY_URL) },
            ),
            Framework::RustDiesel => Some(
                FixText { recommendation: REDUNDANT_SQL_RUST_DIESEL, reference_url: Some(REDUNDANT_SQL_RUST_DIESEL_URL) },
            ),
            Framework::RustSeaOrm => Some(
                FixText { recommendation: REDUNDANT_SQL_RUST_SEA_ORM, reference_url: Some(REDUNDANT_SQL_RUST_SEA_ORM_URL) },
            ),
            Framework::GoGorm => Some(
                FixText { recommendation: REDUNDANT_SQL_GO_GORM, reference_url: Some(REDUNDANT_SQL_GO_GORM_URL) },
            ),
            Framework::GoGeneric => Some(
                FixText { recommendation: REDUNDANT_SQL_GO_GENERIC, reference_url: Some(REDUNDANT_SQL_GO_GENERIC_URL) },
            ),
            Framework::NodePrisma => Some(
                FixText { recommendation: REDUNDANT_SQL_NODE_PRISMA, reference_url: Some(REDUNDANT_SQL_NODE_PRISMA_URL) },
            ),
            Framework::NodeGeneric => Some(
                FixText { recommendation: REDUNDANT_SQL_NODE_GENERIC, reference_url: Some(REDUNDANT_SQL_NODE_GENERIC_URL) },
            ),
            Framework::RubyActiveRecord => Some(
                FixText { recommendation: REDUNDANT_SQL_RUBY_ACTIVE_RECORD, reference_url: Some(REDUNDANT_SQL_RUBY_ACTIVE_RECORD_URL) },
            ),
            Framework::RubyGeneric => Some(
                FixText { recommendation: REDUNDANT_SQL_RUBY_GENERIC, reference_url: Some(REDUNDANT_SQL_RUBY_GENERIC_URL) },
            ),
            Framework::PhpLaravelEloquent => Some(
                FixText { recommendation: REDUNDANT_SQL_PHP_LARAVEL_ELOQUENT, reference_url: Some(REDUNDANT_SQL_PHP_LARAVEL_ELOQUENT_URL) },
            ),
            Framework::PhpDoctrine => Some(
                FixText { recommendation: REDUNDANT_SQL_PHP_DOCTRINE, reference_url: Some(REDUNDANT_SQL_PHP_DOCTRINE_URL) },
            ),
            Framework::PhpGeneric => Some(
                FixText { recommendation: REDUNDANT_SQL_PHP_GENERIC, reference_url: Some(REDUNDANT_SQL_PHP_GENERIC_URL) },
            ),
            _ => None,
        },
        FindingType::RedundantHttp => match framework {
            Framework::JavaGeneric => Some(
                FixText { recommendation: REDUNDANT_HTTP_JAVA_GENERIC, reference_url: Some(REDUNDANT_HTTP_JAVA_GENERIC_URL) },
            ),
            Framework::CsharpEfCore => Some(
                FixText { recommendation: REDUNDANT_HTTP_CSHARP_EF_CORE, reference_url: Some(REDUNDANT_HTTP_CSHARP_EF_CORE_URL) },
            ),
            Framework::CsharpGeneric => Some(
                FixText { recommendation: REDUNDANT_HTTP_CSHARP_GENERIC, reference_url: Some(REDUNDANT_HTTP_CSHARP_GENERIC_URL) },
            ),
            Framework::PythonGeneric => Some(
                FixText { recommendation: REDUNDANT_HTTP_PYTHON_GENERIC, reference_url: Some(REDUNDANT_HTTP_PYTHON_GENERIC_URL) },
            ),
            Framework::RustGeneric => Some(
                FixText { recommendation: REDUNDANT_HTTP_RUST_GENERIC, reference_url: Some(REDUNDANT_HTTP_RUST_GENERIC_URL) },
            ),
            Framework::GoGeneric => Some(
                FixText { recommendation: REDUNDANT_HTTP_GO_GENERIC, reference_url: Some(REDUNDANT_HTTP_GO_GENERIC_URL) },
            ),
            Framework::NodeGeneric => Some(
                FixText { recommendation: REDUNDANT_HTTP_NODE_GENERIC, reference_url: Some(REDUNDANT_HTTP_NODE_GENERIC_URL) },
            ),
            Framework::RubyGeneric => Some(
                FixText { recommendation: REDUNDANT_HTTP_RUBY_GENERIC, reference_url: Some(REDUNDANT_HTTP_RUBY_GENERIC_URL) },
            ),
            Framework::PhpLaravelEloquent => Some(
                FixText { recommendation: REDUNDANT_HTTP_PHP_LARAVEL_ELOQUENT, reference_url: Some(REDUNDANT_HTTP_PHP_LARAVEL_ELOQUENT_URL) },
            ),
            Framework::PhpGeneric => Some(
                FixText { recommendation: REDUNDANT_HTTP_PHP_GENERIC, reference_url: None },
            ),
            _ => None,
        },
        FindingType::SlowSql => match framework {
            Framework::JavaJpa => Some(
                FixText { recommendation: SLOW_SQL_JAVA_JPA, reference_url: Some(SLOW_SQL_JAVA_JPA_URL) },
            ),
            Framework::JavaQuarkus => Some(
                FixText { recommendation: SLOW_SQL_JAVA_QUARKUS, reference_url: Some(SLOW_SQL_JAVA_QUARKUS_URL) },
            ),
            Framework::JavaGeneric => Some(
                FixText { recommendation: SLOW_SQL_JAVA_GENERIC, reference_url: Some(SLOW_SQL_JAVA_GENERIC_URL) },
            ),
            Framework::CsharpEfCore => Some(
                FixText { recommendation: SLOW_SQL_CSHARP_EF_CORE, reference_url: Some(SLOW_SQL_CSHARP_EF_CORE_URL) },
            ),
            Framework::CsharpGeneric => Some(
                FixText { recommendation: SLOW_SQL_CSHARP_GENERIC, reference_url: Some(SLOW_SQL_CSHARP_GENERIC_URL) },
            ),
            Framework::PythonDjango => Some(
                FixText { recommendation: SLOW_SQL_PYTHON_DJANGO, reference_url: Some(SLOW_SQL_PYTHON_DJANGO_URL) },
            ),
            Framework::PythonSqlAlchemy => Some(
                FixText { recommendation: SLOW_SQL_PYTHON_SQL_ALCHEMY, reference_url: Some(SLOW_SQL_PYTHON_SQL_ALCHEMY_URL) },
            ),
            Framework::PythonGeneric => Some(
                FixText { recommendation: SLOW_SQL_PYTHON_GENERIC, reference_url: Some(SLOW_SQL_PYTHON_GENERIC_URL) },
            ),
            Framework::RustDiesel => Some(
                FixText { recommendation: SLOW_SQL_RUST_DIESEL, reference_url: Some(SLOW_SQL_RUST_DIESEL_URL) },
            ),
            Framework::RustSeaOrm => Some(
                FixText { recommendation: SLOW_SQL_RUST_SEA_ORM, reference_url: Some(SLOW_SQL_RUST_SEA_ORM_URL) },
            ),
            Framework::RustGeneric => Some(
                FixText { recommendation: SLOW_SQL_RUST_GENERIC, reference_url: Some(SLOW_SQL_RUST_GENERIC_URL) },
            ),
            Framework::GoGorm => Some(
                FixText { recommendation: SLOW_SQL_GO_GORM, reference_url: Some(SLOW_SQL_GO_GORM_URL) },
            ),
            Framework::GoGeneric => Some(
                FixText { recommendation: SLOW_SQL_GO_GENERIC, reference_url: Some(SLOW_SQL_GO_GENERIC_URL) },
            ),
            Framework::NodePrisma => Some(
                FixText { recommendation: SLOW_SQL_NODE_PRISMA, reference_url: Some(SLOW_SQL_NODE_PRISMA_URL) },
            ),
            Framework::NodeGeneric => Some(
                FixText { recommendation: SLOW_SQL_NODE_GENERIC, reference_url: Some(SLOW_SQL_NODE_GENERIC_URL) },
            ),
            Framework::RubyActiveRecord => Some(
                FixText { recommendation: SLOW_SQL_RUBY_ACTIVE_RECORD, reference_url: Some(SLOW_SQL_RUBY_ACTIVE_RECORD_URL) },
            ),
            Framework::RubyGeneric => Some(
                FixText { recommendation: SLOW_SQL_RUBY_GENERIC, reference_url: Some(SLOW_SQL_RUBY_GENERIC_URL) },
            ),
            Framework::PhpLaravelEloquent => Some(
                FixText { recommendation: SLOW_SQL_PHP_LARAVEL_ELOQUENT, reference_url: Some(SLOW_SQL_PHP_LARAVEL_ELOQUENT_URL) },
            ),
            Framework::PhpDoctrine => Some(
                FixText { recommendation: SLOW_SQL_PHP_DOCTRINE, reference_url: Some(SLOW_SQL_PHP_DOCTRINE_URL) },
            ),
            Framework::PhpGeneric => Some(
                FixText { recommendation: SLOW_SQL_PHP_GENERIC, reference_url: Some(SLOW_SQL_PHP_GENERIC_URL) },
            ),
            _ => None,
        },
        FindingType::SlowHttp => match framework {
            Framework::JavaGeneric => Some(
                FixText { recommendation: SLOW_HTTP_JAVA_GENERIC, reference_url: Some(SLOW_HTTP_JAVA_GENERIC_URL) },
            ),
            Framework::CsharpGeneric => Some(
                FixText { recommendation: SLOW_HTTP_CSHARP_GENERIC, reference_url: Some(SLOW_HTTP_CSHARP_GENERIC_URL) },
            ),
            Framework::PythonGeneric => Some(
                FixText { recommendation: SLOW_HTTP_PYTHON_GENERIC, reference_url: Some(SLOW_HTTP_PYTHON_GENERIC_URL) },
            ),
            Framework::RustGeneric => Some(
                FixText { recommendation: SLOW_HTTP_RUST_GENERIC, reference_url: Some(SLOW_HTTP_RUST_GENERIC_URL) },
            ),
            Framework::GoGeneric => Some(
                FixText { recommendation: SLOW_HTTP_GO_GENERIC, reference_url: Some(SLOW_HTTP_GO_GENERIC_URL) },
            ),
            Framework::NodeGeneric => Some(
                FixText { recommendation: SLOW_HTTP_NODE_GENERIC, reference_url: Some(SLOW_HTTP_NODE_GENERIC_URL) },
            ),
            Framework::RubyGeneric => Some(
                FixText { recommendation: SLOW_HTTP_RUBY_GENERIC, reference_url: Some(SLOW_HTTP_RUBY_GENERIC_URL) },
            ),
            Framework::PhpLaravelEloquent => Some(
                FixText { recommendation: SLOW_HTTP_PHP_LARAVEL_ELOQUENT, reference_url: Some(SLOW_HTTP_PHP_LARAVEL_ELOQUENT_URL) },
            ),
            Framework::PhpGeneric => Some(
                FixText { recommendation: SLOW_HTTP_PHP_GENERIC, reference_url: Some(SLOW_HTTP_PHP_GENERIC_URL) },
            ),
            _ => None,
        },
        FindingType::ExcessiveFanout => match framework {
            Framework::JavaWebFlux => Some(
                FixText { recommendation: EXCESSIVE_FANOUT_JAVA_WEB_FLUX, reference_url: Some(EXCESSIVE_FANOUT_JAVA_WEB_FLUX_URL) },
            ),
            Framework::JavaQuarkusReactive => Some(
                FixText { recommendation: EXCESSIVE_FANOUT_JAVA_QUARKUS_REACTIVE, reference_url: Some(EXCESSIVE_FANOUT_JAVA_QUARKUS_REACTIVE_URL) },
            ),
            Framework::JavaGeneric => Some(
                FixText { recommendation: EXCESSIVE_FANOUT_JAVA_GENERIC, reference_url: Some(EXCESSIVE_FANOUT_JAVA_GENERIC_URL) },
            ),
            Framework::CsharpGeneric => Some(
                FixText { recommendation: EXCESSIVE_FANOUT_CSHARP_GENERIC, reference_url: Some(EXCESSIVE_FANOUT_CSHARP_GENERIC_URL) },
            ),
            Framework::PythonGeneric => Some(
                FixText { recommendation: EXCESSIVE_FANOUT_PYTHON_GENERIC, reference_url: Some(EXCESSIVE_FANOUT_PYTHON_GENERIC_URL) },
            ),
            Framework::RustGeneric => Some(
                FixText { recommendation: EXCESSIVE_FANOUT_RUST_GENERIC, reference_url: Some(EXCESSIVE_FANOUT_RUST_GENERIC_URL) },
            ),
            Framework::GoGeneric => Some(
                FixText { recommendation: EXCESSIVE_FANOUT_GO_GENERIC, reference_url: Some(EXCESSIVE_FANOUT_GO_GENERIC_URL) },
            ),
            Framework::NodeGeneric => Some(
                FixText { recommendation: EXCESSIVE_FANOUT_NODE_GENERIC, reference_url: Some(EXCESSIVE_FANOUT_NODE_GENERIC_URL) },
            ),
            Framework::RubyGeneric => Some(
                FixText { recommendation: EXCESSIVE_FANOUT_RUBY_GENERIC, reference_url: Some(EXCESSIVE_FANOUT_RUBY_GENERIC_URL) },
            ),
            Framework::PhpLaravelEloquent => Some(
                FixText { recommendation: EXCESSIVE_FANOUT_PHP_LARAVEL_ELOQUENT, reference_url: Some(EXCESSIVE_FANOUT_PHP_LARAVEL_ELOQUENT_URL) },
            ),
            Framework::PhpGeneric => Some(
                FixText { recommendation: EXCESSIVE_FANOUT_PHP_GENERIC, reference_url: Some(EXCESSIVE_FANOUT_PHP_GENERIC_URL) },
            ),
            _ => None,
        },
        FindingType::ChattyService => match framework {
            Framework::JavaGeneric => Some(
                FixText { recommendation: CHATTY_SERVICE_JAVA_GENERIC, reference_url: Some(CHATTY_SERVICE_JAVA_GENERIC_URL) },
            ),
            Framework::CsharpGeneric => Some(
                FixText { recommendation: CHATTY_SERVICE_CSHARP_GENERIC, reference_url: Some(CHATTY_SERVICE_CSHARP_GENERIC_URL) },
            ),
            Framework::PythonGeneric => Some(
                FixText { recommendation: CHATTY_SERVICE_PYTHON_GENERIC, reference_url: Some(CHATTY_SERVICE_PYTHON_GENERIC_URL) },
            ),
            Framework::RustGeneric => Some(
                FixText { recommendation: CHATTY_SERVICE_RUST_GENERIC, reference_url: Some(CHATTY_SERVICE_RUST_GENERIC_URL) },
            ),
            Framework::GoGeneric => Some(
                FixText { recommendation: CHATTY_SERVICE_GO_GENERIC, reference_url: Some(CHATTY_SERVICE_GO_GENERIC_URL) },
            ),
            Framework::NodeGeneric => Some(
                FixText { recommendation: CHATTY_SERVICE_NODE_GENERIC, reference_url: Some(CHATTY_SERVICE_NODE_GENERIC_URL) },
            ),
            Framework::RubyGeneric => Some(
                FixText { recommendation: CHATTY_SERVICE_RUBY_GENERIC, reference_url: Some(CHATTY_SERVICE_RUBY_GENERIC_URL) },
            ),
            Framework::PhpLaravelEloquent => Some(
                FixText { recommendation: CHATTY_SERVICE_PHP_LARAVEL_ELOQUENT, reference_url: None },
            ),
            Framework::PhpGeneric => Some(
                FixText { recommendation: CHATTY_SERVICE_PHP_GENERIC, reference_url: None },
            ),
            _ => None,
        },
        FindingType::PoolSaturation => match framework {
            Framework::JavaQuarkus => Some(
                FixText { recommendation: POOL_SATURATION_JAVA_QUARKUS, reference_url: Some(POOL_SATURATION_JAVA_QUARKUS_URL) },
            ),
            Framework::JavaGeneric => Some(
                FixText { recommendation: POOL_SATURATION_JAVA_GENERIC, reference_url: Some(POOL_SATURATION_JAVA_GENERIC_URL) },
            ),
            Framework::CsharpEfCore => Some(
                FixText { recommendation: POOL_SATURATION_CSHARP_EF_CORE, reference_url: Some(POOL_SATURATION_CSHARP_EF_CORE_URL) },
            ),
            Framework::CsharpGeneric => Some(
                FixText { recommendation: POOL_SATURATION_CSHARP_GENERIC, reference_url: Some(POOL_SATURATION_CSHARP_GENERIC_URL) },
            ),
            Framework::PythonGeneric => Some(
                FixText { recommendation: POOL_SATURATION_PYTHON_GENERIC, reference_url: Some(POOL_SATURATION_PYTHON_GENERIC_URL) },
            ),
            Framework::RustGeneric => Some(
                FixText { recommendation: POOL_SATURATION_RUST_GENERIC, reference_url: Some(POOL_SATURATION_RUST_GENERIC_URL) },
            ),
            Framework::GoGeneric => Some(
                FixText { recommendation: POOL_SATURATION_GO_GENERIC, reference_url: Some(POOL_SATURATION_GO_GENERIC_URL) },
            ),
            Framework::NodeGeneric => Some(
                FixText { recommendation: POOL_SATURATION_NODE_GENERIC, reference_url: Some(POOL_SATURATION_NODE_GENERIC_URL) },
            ),
            Framework::RubyGeneric => Some(
                FixText { recommendation: POOL_SATURATION_RUBY_GENERIC, reference_url: Some(POOL_SATURATION_RUBY_GENERIC_URL) },
            ),
            Framework::PhpLaravelEloquent => Some(
                FixText { recommendation: POOL_SATURATION_PHP_LARAVEL_ELOQUENT, reference_url: None },
            ),
            Framework::PhpGeneric => Some(
                FixText { recommendation: POOL_SATURATION_PHP_GENERIC, reference_url: None },
            ),
            _ => None,
        },
        FindingType::SerializedCalls => match framework {
            Framework::JavaWebFlux => Some(
                FixText { recommendation: SERIALIZED_CALLS_JAVA_WEB_FLUX, reference_url: Some(SERIALIZED_CALLS_JAVA_WEB_FLUX_URL) },
            ),
            Framework::JavaQuarkusReactive => Some(
                FixText { recommendation: SERIALIZED_CALLS_JAVA_QUARKUS_REACTIVE, reference_url: Some(SERIALIZED_CALLS_JAVA_QUARKUS_REACTIVE_URL) },
            ),
            Framework::JavaGeneric => Some(
                FixText { recommendation: SERIALIZED_CALLS_JAVA_GENERIC, reference_url: Some(SERIALIZED_CALLS_JAVA_GENERIC_URL) },
            ),
            Framework::CsharpGeneric => Some(
                FixText { recommendation: SERIALIZED_CALLS_CSHARP_GENERIC, reference_url: Some(SERIALIZED_CALLS_CSHARP_GENERIC_URL) },
            ),
            Framework::PythonGeneric => Some(
                FixText { recommendation: SERIALIZED_CALLS_PYTHON_GENERIC, reference_url: Some(SERIALIZED_CALLS_PYTHON_GENERIC_URL) },
            ),
            Framework::RustGeneric => Some(
                FixText { recommendation: SERIALIZED_CALLS_RUST_GENERIC, reference_url: Some(SERIALIZED_CALLS_RUST_GENERIC_URL) },
            ),
            Framework::GoGeneric => Some(
                FixText { recommendation: SERIALIZED_CALLS_GO_GENERIC, reference_url: Some(SERIALIZED_CALLS_GO_GENERIC_URL) },
            ),
            Framework::NodeGeneric => Some(
                FixText { recommendation: SERIALIZED_CALLS_NODE_GENERIC, reference_url: Some(SERIALIZED_CALLS_NODE_GENERIC_URL) },
            ),
            Framework::RubyGeneric => Some(
                FixText { recommendation: SERIALIZED_CALLS_RUBY_GENERIC, reference_url: Some(SERIALIZED_CALLS_RUBY_GENERIC_URL) },
            ),
            Framework::PhpLaravelEloquent => Some(
                FixText { recommendation: SERIALIZED_CALLS_PHP_LARAVEL_ELOQUENT, reference_url: Some(SERIALIZED_CALLS_PHP_LARAVEL_ELOQUENT_URL) },
            ),
            Framework::PhpGeneric => Some(
                FixText { recommendation: SERIALIZED_CALLS_PHP_GENERIC, reference_url: Some(SERIALIZED_CALLS_PHP_GENERIC_URL) },
            ),
            _ => None,
        },
    }
}

/// The fix for a type of finding under a framework, where the table has one.
pub fn fix_text(finding_type: FindingType, framework: Framework) -> (r: Option<FixText>)
    ensures
        r == fix_entry(finding_type, framework),
{
    match finding_type {
        FindingType::NPlusOneSql => match framework {
            Framework::JavaJpa => Some(
                FixText { recommendation: N_PLUS_ONE_SQL_JAVA_JPA, reference_url: Some(N_PLUS_ONE_SQL_JAVA_JPA_URL) },
            ),
            Framework::JavaQuarkusReactive => Some(
                FixText { recommendation: N_PLUS_ONE_SQL_JAVA_QUARKUS_REACTIVE, reference_url: Some(N_PLUS_ONE_SQL_JAVA_QUARKUS_REACTIVE_URL) },
            ),
            Framework::JavaQuarkus => Some(
                FixText { recommendation: N_PLUS_ONE_SQL_JAVA_QUARKUS, reference_url: Some(N_PLUS_ONE_SQL_JAVA_QUARKUS_URL) },
            ),
            Framework::JavaHelidonMp => Some(
                FixText { recommendation: N_PLUS_ONE_SQL_JAVA_HELIDON_MP, reference_url: Some(N_PLUS_ONE_SQL_JAVA_HELIDON_MP_URL) },
            ),
            Framework::JavaHelidonSe => Some(
                FixText { recommendation: N_PLUS_ONE_SQL_JAVA_HELIDON_SE, reference_url: Some(N_PLUS_ONE_SQL_JAVA_HELIDON_SE_URL) },
            ),
            Framework::CsharpEfCore => Some(
                FixText { recommendation: N_PLUS_ONE_SQL_CSHARP_EF_CORE, reference_url: Some(N_PLUS_ONE_SQL_CSHARP_EF_CORE_URL) },
            ),
            Framework::PythonDjango => Some(
                FixText { recommendation: N_PLUS_ONE_SQL_PYTHON_DJANGO, reference_url: Some(N_PLUS_ONE_SQL_PYTHON_DJANGO_URL) },
            ),
            Framework::PythonSqlAlchemy => Some(
                FixText { recommendation: N_PLUS_ONE_SQL_PYTHON_SQL_ALCHEMY, reference_url: Some(N_PLUS_ONE_SQL_PYTHON_SQL_ALCHEMY_URL) },
            ),
            Framework::RustDiesel => Some(
                FixText { recommendation: N_PLUS_ONE_SQL_RUST_DIESEL, reference_url: Some(N_PLUS_ONE_SQL_RUST_DIESEL_URL) },
            ),
            Framework::RustSeaOrm => Some(
                FixText { recommendation: N_PLUS_ONE_SQL_RUST_SEA_ORM, reference_url: Some(N_PLUS_ONE_SQL_RUST_SEA_ORM_URL) },
            ),
            Framework::GoGorm => Some(
                FixText { recommendation: N_PLUS_ONE_SQL_GO_GORM, reference_url: Some(N_PLUS_ONE_SQL_GO_GORM_URL) },
            ),
            Framework::GoGeneric => Some(
                FixText { recommendation: N_PLUS_ONE_SQL_GO_GENERIC, reference_url: Some(N_PLUS_ONE_SQL_GO_GENERIC_URL) },
            ),
            Framework::NodePrisma => Some(
                FixText { recommendation: N_PLUS_ONE_SQL_NODE_PRISMA, reference_url: Some(N_PLUS_ONE_SQL_NODE_PRISMA_URL) },
            ),
            Framework::NodeGeneric => Some(
                FixText { recommendation: N_PLUS_ONE_SQL_NODE_GENERIC, reference_url: Some(N_PLUS_ONE_SQL_NODE_GENERIC_URL) },
            ),
            Framework::RubyActiveRecord => Some(
                FixText { recommendation: N_PLUS_ONE_SQL_RUBY_ACTIVE_RECORD, reference_url: Some(N_PLUS_ONE_SQL_RUBY_ACTIVE_RECORD_URL) },
            ),
            Framework::RubyGeneric => Some(
                FixText { recommendation: N_PLUS_ONE_SQL_RUBY_GENERIC, reference_url: Some(N_PLUS_ONE_SQL_RUBY_GENERIC_URL) },
            ),
            Framework::PhpLaravelEloquent => Some(
                FixText { recommendation: N_PLUS_ONE_SQL_PHP_LARAVEL_ELOQUENT, reference_url: Some(N_PLUS_ONE_SQL_PHP_LARAVEL_ELOQUENT_URL) },
            ),
            Framework::PhpDoctrine => Some(
                FixText { recommendation: N_PLUS_ONE_SQL_PHP_DOCTRINE, reference_url: Some(N_PLUS_ONE_SQL_PHP_DOCTRINE_URL) },
            ),
            Framework::PhpGeneric => Some(
                FixText { recommendation: N_PLUS_ONE_SQL_PHP_GENERIC, reference_url: Some(N_PLUS_ONE_SQL_PHP_GENERIC_URL) },
            ),
            _ => None,
        },
        FindingType::NPlusOneHttp => match framework {
            Framework::JavaWebFlux => Some(
                FixText { recommendation: N_PLUS_ONE_HTTP_JAVA_WEB_FLUX, reference_url: Some(N_PLUS_ONE_HTTP_JAVA_WEB_FLUX_URL) },
            ),
            Framework::JavaQuarkusReactive => Some(
                FixText { recommendation: N_PLUS_ONE_HTTP_JAVA_QUARKUS_REACTIVE, reference_url: Some(N_PLUS_ONE_HTTP_JAVA_QUARKUS_REACTIVE_URL) },
            ),
            Framework::JavaQuarkus => Some(
                FixText { recommendation: N_PLUS_ONE_HTTP_JAVA_QUARKUS, reference_url: Some(N_PLUS_ONE_HTTP_JAVA_QUARKUS_URL) },
            ),
            Framework::JavaHelidonMp => Some(
                FixText { recommendation: N_PLUS_ONE_HTTP_JAVA_HELIDON_MP, reference_url: Some(N_PLUS_ONE_HTTP_JAVA_HELIDON_MP_URL) },
            ),
            Framework::JavaHelidonSe => Some(
                FixText { recommendation: N_PLUS_ONE_HTTP_JAVA_HELIDON_SE, reference_url: Some(N_PLUS_ONE_HTTP_JAVA_HELIDON_SE_URL) },
            ),
            Framework::JavaGeneric => Some(
                FixText { recommendation: N_PLUS_ONE_HTTP_JAVA_GENERIC, reference_url: Some(N_PLUS_ONE_HTTP_JAVA_GENERIC_URL) },
            ),
            Framework::CsharpGeneric => Some(
                FixText { recommendation: N_PLUS_ONE_HTTP_CSHARP_GENERIC, reference_url: Some(N_PLUS_ONE_HTTP_CSHARP_GENERIC_URL) },
            ),
            Framework::PythonGeneric => Some(
                FixText { recommendation: N_PLUS_ONE_HTTP_PYTHON_GENERIC, reference_url: Some(N_PLUS_ONE_HTTP_PYTHON_GENERIC_URL) },
            ),
            Framework::RustGeneric => Some(
                FixText { recommendation: N_PLUS_ONE_HTTP_RUST_GENERIC, reference_url: Some(N_PLUS_ONE_HTTP_RUST_GENERIC_URL) },
            ),
            Framework::GoGeneric => Some(
                FixText { recommendation: N_PLUS_ONE_HTTP_GO_GENERIC, reference_url: Some(N_PLUS_ONE_HTTP_GO_GENERIC_URL) },
            ),
            Framework::NodeGeneric => Some(
                FixText { recommendation: N_PLUS_ONE_HTTP_NODE_GENERIC, reference_url: Some(N_PLUS_ONE_HTTP_NODE_GENERIC_URL) },
            ),
            Framework::RubyGeneric => Some(
                FixText { recommendation: N_PLUS_ONE_HTTP_RUBY_GENERIC, reference_url: Some(N_PLUS_ONE_HTTP_RUBY_GENERIC_URL) },
            ),
            Framework::PhpLaravelEloquent => Some(
                FixText { recommendation: N_PLUS_ONE_HTTP_PHP_LARAVEL_ELOQUENT, reference_url: Some(N_PLUS_ONE_HTTP_PHP_LARAVEL_ELOQUENT_URL) },
            ),
            Framework::PhpGeneric => Some(
                FixText { recommendation: N_PLUS_ONE_HTTP_PHP_GENERIC, reference_url: Some(N_PLUS_ONE_HTTP_PHP_GENERIC_URL) },
            ),
            _ => None,
        },
        FindingType::RedundantSql => match framework {
            Framework::JavaJpa => Some(
                FixText { recommendation: REDUNDANT_SQL_JAVA_JPA, reference_url: Some(REDUNDANT_SQL_JAVA_JPA_URL) },
            ),
            Framework::JavaQuarkusReactive => Some(
                FixText { recommendation: REDUNDANT_SQL_JAVA_QUARKUS_REACTIVE, reference_url: Some(REDUNDANT_SQL_JAVA_QUARKUS_REACTIVE_URL) },
            ),
            Framework::JavaQuarkus => Some(
                FixText { recommendation: REDUNDANT_SQL_JAVA_QUARKUS, reference_url: Some(REDUNDANT_SQL_JAVA_QUARKUS_URL) },
            ),
            Framework::JavaGeneric => Some(
                FixText { recommendation: REDUNDANT_SQL_JAVA_GENERIC, reference_url: Some(REDUNDANT_SQL_JAVA_GENERIC_URL) },
            ),
            Framework::CsharpEfCore => Some(
                FixText { recommendation: REDUNDANT_SQL_CSHARP_EF_CORE, reference_url: Some(REDUNDANT_SQL_CSHARP_EF_CORE_URL) },
            ),
            Framework::PythonDjango => Some(
                FixText { recommendation: REDUNDANT_SQL_PYTHON_DJANGO, reference_url: Some(REDUNDANT_SQL_PYTHON_DJANGO_URL) },
            ),
            Framework::PythonSqlAlchemy => Some(
                FixText { recommendation: REDUNDANT_SQL_PYTHON_SQL_ALCHEMY, reference_url: Some(REDUNDANT_SQL_PYTHON_SQL_ALCHEMY_URL) },
            ),
            Framework::RustDiesel => Some(
                FixText { recommendation: REDUNDANT_SQL_RUST_DIESEL, reference_url: Some(REDUNDANT_SQL_RUST_DIESEL_URL) },
            ),
            Framework::RustSeaOrm => Some(
                FixText { recommendation: REDUNDANT_SQL_RUST_SEA_ORM, reference_url: Some(REDUNDANT_SQL_RUST_SEA_ORM_URL) },
            ),
            Framework::GoGorm => Some(
                FixText { recommendation: REDUNDANT_SQL_GO_GORM, reference_url: Some(REDUNDANT_SQL_GO_GORM_URL) },
            ),
            Framework::GoGeneric => Some(
                FixText { recommendation: REDUNDANT_SQL_GO_GENERIC, reference_url: Some(REDUNDANT_SQL_GO_GENERIC_URL) },
            ),
            Framework::NodePrisma => Some(
                FixText { recommendation: REDUNDANT_SQL_NODE_PRISMA, reference_url: Some(REDUNDANT_SQL_NODE_PRISMA_URL) },
            ),
            Framework::NodeGeneric => Some(
                FixText { recommendation: REDUNDANT_SQL_NODE_GENERIC, reference_url: Some(REDUNDANT_SQL_NODE_GENERIC_URL) },
            ),
            Framework::RubyActiveRecord => Some(
                FixText { recommendation: REDUNDANT_SQL_RUBY_ACTIVE_RECORD, reference_url: Some(REDUNDANT_SQL_RUBY_ACTIVE_RECORD_URL) },
            ),
            Framework::RubyGeneric => Some(
                FixText { recommendation: REDUNDANT_SQL_RUBY_GENERIC, reference_url: Some(REDUNDANT_SQL_RUBY_GENERIC_URL) },
            ),
            Framework::PhpLaravelEloquent => Some(
                FixText { recommendation: REDUNDANT_SQL_PHP_LARAVEL_ELOQUENT, reference_url: Some(REDUNDANT_SQL_PHP_LARAVEL_ELOQUENT_URL) },
            ),
            Framework::PhpDoctrine => Some(
                FixText { recommendation: REDUNDANT_SQL_PHP_DOCTRINE, reference_url: Some(REDUNDANT_SQL_PHP_DOCTRINE_URL) },
            ),
            Framework::PhpGeneric => Some(
                FixText { recommendation: REDUNDANT_SQL_PHP_GENERIC, reference_url: Some(REDUNDANT_SQL_PHP_GENERIC_URL) },
            ),
            _ => None,
        },
        FindingType::RedundantHttp => match framework {
            Framework::JavaGeneric => Some(
                FixText { recommendation: REDUNDANT_HTTP_JAVA_GENERIC, reference_url: Some(REDUNDANT_HTTP_JAVA_GENERIC_URL) },
            ),
            Framework::CsharpEfCore => Some(
                FixText { recommendation: REDUNDANT_HTTP_CSHARP_EF_CORE, reference_url: Some(REDUNDANT_HTTP_CSHARP_EF_CORE_URL) },
            ),
            Framework::CsharpGeneric => Some(
                FixText { recommendation: REDUNDANT_HTTP_CSHARP_GENERIC, reference_url: Some(REDUNDANT_HTTP_CSHARP_GENERIC_URL) },
            ),
            Framework::PythonGeneric => Some(
                FixText { recommendation: REDUNDANT_HTTP_PYTHON_GENERIC, reference_url: Some(REDUNDANT_HTTP_PYTHON_GENERIC_URL) },
            ),
            Framework::RustGeneric => Some(
                FixText { recommendation: REDUNDANT_HTTP_RUST_GENERIC, reference_url: Some(REDUNDANT_HTTP_RUST_GENERIC_URL) },
            ),
            Framework::GoGeneric => Some(
                FixText { recommendation: REDUNDANT_HTTP_GO_GENERIC, reference_url: Some(REDUNDANT_HTTP_GO_GENERIC_URL) },
            ),
            Framework::NodeGeneric => Some(
                FixText { recommendation: REDUNDANT_HTTP_NODE_GENERIC, reference_url: Some(REDUNDANT_HTTP_NODE_GENERIC_URL) },
            ),
            Framework::RubyGeneric => Some(
                FixText { recommendation: REDUNDANT_HTTP_RUBY_GENERIC, reference_url: Some(REDUNDANT_HTTP_RUBY_GENERIC_URL) },
            ),
            Framework::PhpLaravelEloquent => Some(
                FixText { recommendation: REDUNDANT_HTTP_PHP_LARAVEL_ELOQUENT, reference_url: Some(REDUNDANT_HTTP_PHP_LARAVEL_ELOQUENT_URL) },
            ),
            Framework::PhpGeneric => Some(
                FixText { recommendation: REDUNDANT_HTTP_PHP_GENERIC, reference_url: None },
            ),
            _ => None,
        },
        FindingType::SlowSql => match framework {
            Framework::JavaJpa => Some(
                FixText { recommendation: SLOW_SQL_JAVA_JPA, reference_url: Some(SLOW_SQL_JAVA_JPA_URL) },
            ),
            Framework::JavaQuarkus => Some(
                FixText { recommendation: SLOW_SQL_JAVA_QUARKUS, reference_url: Some(SLOW_SQL_JAVA_QUARKUS_URL) },
            ),
            Framework::JavaGeneric => Some(
                FixText { recommendation: SLOW_SQL_JAVA_GENERIC, reference_url: Some(SLOW_SQL_JAVA_GENERIC_URL) },
            ),
            Framework::CsharpEfCore => Some(
                FixText { recommendation: SLOW_SQL_CSHARP_EF_CORE, reference_url: Some(SLOW_SQL_CSHARP_EF_CORE_URL) },
            ),
            Framework::CsharpGeneric => Some(
                FixText { recommendation: SLOW_SQL_CSHARP_GENERIC, reference_url: Some(SLOW_SQL_CSHARP_GENERIC_URL) },
            ),
            Framework::PythonDjango => Some(
                FixText { recommendation: SLOW_SQL_PYTHON_DJANGO, reference_url: Some(SLOW_SQL_PYTHON_DJANGO_URL) },
            ),
            Framework::PythonSqlAlchemy => Some(
                FixText { recommendation: SLOW_SQL_PYTHON_SQL_ALCHEMY, reference_url: Some(SLOW_SQL_PYTHON_SQL_ALCHEMY_URL) },
            ),
            Framework::PythonGeneric => Some(
                FixText { recommendation: SLOW_SQL_PYTHON_GENERIC, reference_url: Some(SLOW_SQL_PYTHON_GENERIC_URL) },
            ),
            Framework::RustDiesel => Some(
                FixText { recommendation: SLOW_SQL_RUST_DIESEL, reference_url: Some(SLOW_SQL_RUST_DIESEL_URL) },
            ),
            Framework::RustSeaOrm => Some(
                FixText { recommendation: SLOW_SQL_RUST_SEA_ORM, reference_url: Some(SLOW_SQL_RUST_SEA_ORM_URL) },
            ),
            Framework::RustGeneric => Some(
                FixText { recommendation: SLOW_SQL_RUST_GENERIC, reference_url: Some(SLOW_SQL_RUST_GENERIC_URL) },
            ),
            Framework::GoGorm => Some(
                FixText { recommendation: SLOW_SQL_GO_GORM, reference_url: Some(SLOW_SQL_GO_GORM_URL) },
            ),
            Framework::GoGeneric => Some(
                FixText { recommendation: SLOW_SQL_GO_GENERIC, reference_url: Some(SLOW_SQL_GO_GENERIC_URL) },
            ),
            Framework::NodePrisma => Some(
                FixText { recommendation: SLOW_SQL_NODE_PRISMA, reference_url: Some(SLOW_SQL_NODE_PRISMA_URL) },
            ),
            Framework::NodeGeneric => Some(
                FixText { recommendation: SLOW_SQL_NODE_GENERIC, reference_url: Some(SLOW_SQL_NODE_GENERIC_URL) },
            ),
            Framework::RubyActiveRecord => Some(
                FixText { recommendation: SLOW_SQL_RUBY_ACTIVE_RECORD, reference_url: Some(SLOW_SQL_RUBY_ACTIVE_RECORD_URL) },
            ),
            Framework::RubyGeneric => Some(
                FixText { recommendation: SLOW_SQL_RUBY_GENERIC, reference_url: Some(SLOW_SQL_RUBY_GENERIC_URL) },
            ),
            Framework::PhpLaravelEloquent => Some(
                FixText { recommendation: SLOW_SQL_PHP_LARAVEL_ELOQUENT, reference_url: Some(SLOW_SQL_PHP_LARAVEL_ELOQUENT_URL) },
            ),
            Framework::PhpDoctrine => Some(
                FixText { recommendation: SLOW_SQL_PHP_DOCTRINE, reference_url: Some(SLOW_SQL_PHP_DOCTRINE_URL) },
            ),
            Framework::PhpGeneric => Some(
                FixText { recommendation: SLOW_SQL_PHP_GENERIC, reference_url: Some(SLOW_SQL_PHP_GENERIC_URL) },
            ),
            _ => None,
        },
        FindingType::SlowHttp => match framework {
            Framework::JavaGeneric => Some(
                FixText { recommendation: SLOW_HTTP_JAVA_GENERIC, reference_url: Some(SLOW_HTTP_JAVA_GENERIC_URL) },
            ),
            Framework::CsharpGeneric => Some(
                FixText { recommendation: SLOW_HTTP_CSHARP_GENERIC, reference_url: Some(SLOW_HTTP_CSHARP_GENERIC_URL) },
            ),
            Framework::PythonGeneric => Some(
                FixText { recommendation: SLOW_HTTP_PYTHON_GENERIC, reference_url: Some(SLOW_HTTP_PYTHON_GENERIC_URL) },
            ),
            Framework::RustGeneric => Some(
                FixText { recommendation: SLOW_HTTP_RUST_GENERIC, reference_url: Some(SLOW_HTTP_RUST_GENERIC_URL) },
            ),
            Framework::GoGeneric => Some(
                FixText { recommendation: SLOW_HTTP_GO_GENERIC, reference_url: Some(SLOW_HTTP_GO_GENERIC_URL) },
            ),
            Framework::NodeGeneric => Some(
                FixText { recommendation: SLOW_HTTP_NODE_GENERIC, reference_url: Some(SLOW_HTTP_NODE_GENERIC_URL) },
            ),
            Framework::RubyGeneric => Some(
                FixText { recommendation: SLOW_HTTP_RUBY_GENERIC, reference_url: Some(SLOW_HTTP_RUBY_GENERIC_URL) },
            ),
            Framework::PhpLaravelEloquent => Some(
                FixText { recommendation: SLOW_HTTP_PHP_LARAVEL_ELOQUENT, reference_url: Some(SLOW_HTTP_PHP_LARAVEL_ELOQUENT_URL) },
            ),
            Framework::PhpGeneric => Some(
                FixText { recommendation: SLOW_HTTP_PHP_GENERIC, reference_url: Some(SLOW_HTTP_PHP_GENERIC_URL) },
            ),
            _ => None,
        },
        FindingType::ExcessiveFanout => match framework {
            Framework::JavaWebFlux => Some(
                FixText { recommendation: EXCESSIVE_FANOUT_JAVA_WEB_FLUX, reference_url: Some(EXCESSIVE_FANOUT_JAVA_WEB_FLUX_URL) },
            ),
            Framework::JavaQuarkusReactive => Some(
                FixText { recommendation: EXCESSIVE_FANOUT_JAVA_QUARKUS_REACTIVE, reference_url: Some(EXCESSIVE_FANOUT_JAVA_QUARKUS_REACTIVE_URL) },
            ),
            Framework::JavaGeneric => Some(
                FixText { recommendation: EXCESSIVE_FANOUT_JAVA_GENERIC, reference_url: Some(EXCESSIVE_FANOUT_JAVA_GENERIC_URL) },
            ),
            Framework::CsharpGeneric => Some(
                FixText { recommendation: EXCESSIVE_FANOUT_CSHARP_GENERIC, reference_url: Some(EXCESSIVE_FANOUT_CSHARP_GENERIC_URL) },
            ),
            Framework::PythonGeneric => Some(
                FixText { recommendation: EXCESSIVE_FANOUT_PYTHON_GENERIC, reference_url: Some(EXCESSIVE_FANOUT_PYTHON_GENERIC_URL) },
            ),
            Framework::RustGeneric => Some(
                FixText { recommendation: EXCESSIVE_FANOUT_RUST_GENERIC, reference_url: Some(EXCESSIVE_FANOUT_RUST_GENERIC_URL) },
            ),
            Framework::GoGeneric => Some(
                FixText { recommendation: EXCESSIVE_FANOUT_GO_GENERIC, reference_url: Some(EXCESSIVE_FANOUT_GO_GENERIC_URL) },
            ),
            Framework::NodeGeneric => Some(
                FixText { recommendation: EXCESSIVE_FANOUT_NODE_GENERIC, reference_url: Some(EXCESSIVE_FANOUT_NODE_GENERIC_URL) },
            ),
            Framework::RubyGeneric => Some(
                FixText { recommendation: EXCESSIVE_FANOUT_RUBY_GENERIC, reference_url: Some(EXCESSIVE_FANOUT_RUBY_GENERIC_URL) },
            ),
            Framework::PhpLaravelEloquent => Some(
                FixText { recommendation: EXCESSIVE_FANOUT_PHP_LARAVEL_ELOQUENT, reference_url: Some(EXCESSIVE_FANOUT_PHP_LARAVEL_ELOQUENT_URL) },
            ),
            Framework::PhpGeneric => Some(
                FixText { recommendation: EXCESSIVE_FANOUT_PHP_GENERIC, reference_url: Some(EXCESSIVE_FANOUT_PHP_GENERIC_URL) },
            ),
            _ => None,
        },
        FindingType::ChattyService => match framework {
            Framework::JavaGeneric => Some(
                FixText { recommendation: CHATTY_SERVICE_JAVA_GENERIC, reference_url: Some(CHATTY_SERVICE_JAVA_GENERIC_URL) },
            ),
            Framework::CsharpGeneric => Some(
                FixText { recommendation: CHATTY_SERVICE_CSHARP_GENERIC, reference_url: Some(CHATTY_SERVICE_CSHARP_GENERIC_URL) },
            ),
            Framework::PythonGeneric => Some(
                FixText { recommendation: CHATTY_SERVICE_PYTHON_GENERIC, reference_url: Some(CHATTY_SERVICE_PYTHON_GENERIC_URL) },
            ),
            Framework::RustGeneric => Some(
                FixText { recommendation: CHATTY_SERVICE_RUST_GENERIC, reference_url: Some(CHATTY_SERVICE_RUST_GENERIC_URL) },
            ),
            Framework::GoGeneric => Some(
                FixText { recommendation: CHATTY_SERVICE_GO_GENERIC, reference_url: Some(CHATTY_SERVICE_GO_GENERIC_URL) },
            ),
            Framework::NodeGeneric => Some(
                FixText { recommendation: CHATTY_SERVICE_NODE_GENERIC, reference_url: Some(CHATTY_SERVICE_NODE_GENERIC_URL) },
            ),
            Framework::RubyGeneric => Some(
                FixText { recommendation: CHATTY_SERVICE_RUBY_GENERIC, reference_url: Some(CHATTY_SERVICE_RUBY_GENERIC_URL) },
            ),
            Framework::PhpLaravelEloquent => Some(
                FixText { recommendation: CHATTY_SERVICE_PHP_LARAVEL_ELOQUENT, reference_url: None },
            ),
            Framework::PhpGeneric => Some(
                FixText { recommendation: CHATTY_SERVICE_PHP_GENERIC, reference_url: None },
            ),
            _ => None,
        },
        FindingType::PoolSaturation => match framework {
            Framework::JavaQuarkus => Some(
                FixText { recommendation: POOL_SATURATION_JAVA_QUARKUS, reference_url: Some(POOL_SATURATION_JAVA_QUARKUS_URL) },
            ),
            Framework::JavaGeneric => Some(
                FixText { recommendation: POOL_SATURATION_JAVA_GENERIC, reference_url: Some(POOL_SATURATION_JAVA_GENERIC_URL) },
            ),
            Framework::CsharpEfCore => Some(
                FixText { recommendation: POOL_SATURATION_CSHARP_EF_CORE, reference_url: Some(POOL_SATURATION_CSHARP_EF_CORE_URL) },
            ),
            Framework::CsharpGeneric => Some(
                FixText { recommendation: POOL_SATURATION_CSHARP_GENERIC, reference_url: Some(POOL_SATURATION_CSHARP_GENERIC_URL) },
            ),
            Framework::PythonGeneric => Some(
                FixText { recommendation: POOL_SATURATION_PYTHON_GENERIC, reference_url: Some(POOL_SATURATION_PYTHON_GENERIC_URL) },
            ),
            Framework::RustGeneric => Some(
                FixText { recommendation: POOL_SATURATION_RUST_GENERIC, reference_url: Some(POOL_SATURATION_RUST_GENERIC_URL) },
            ),
            Framework::GoGeneric => Some(
                FixText { recommendation: POOL_SATURATION_GO_GENERIC, reference_url: Some(POOL_SATURATION_GO_GENERIC_URL) },
            ),
            Framework::NodeGeneric => Some(
                FixText { recommendation: POOL_SATURATION_NODE_GENERIC, reference_url: Some(POOL_SATURATION_NODE_GENERIC_URL) },
            ),
            Framework::RubyGeneric => Some(
                FixText { recommendation: POOL_SATURATION_RUBY_GENERIC, reference_url: Some(POOL_SATURATION_RUBY_GENERIC_URL) },
            ),
            Framework::PhpLaravelEloquent => Some(
                FixText { recommendation: POOL_SATURATION_PHP_LARAVEL_ELOQUENT, reference_url: None },
            ),
            Framework::PhpGeneric => Some(
                FixText { recommendation: POOL_SATURATION_PHP_GENERIC, reference_url: None },
            ),
            _ => None,
        },
        FindingType::SerializedCalls => match framework {
            Framework::JavaWebFlux => Some(
                FixText { recommendation: SERIALIZED_CALLS_JAVA_WEB_FLUX, reference_url: Some(SERIALIZED_CALLS_JAVA_WEB_FLUX_URL) },
            ),
            Framework::JavaQuarkusReactive => Some(
                FixText { recommendation: SERIALIZED_CALLS_JAVA_QUARKUS_REACTIVE, reference_url: Some(SERIALIZED_CALLS_JAVA_QUARKUS_REACTIVE_URL) },
            ),
            Framework::JavaGeneric => Some(
                FixText { recommendation: SERIALIZED_CALLS_JAVA_GENERIC, reference_url: Some(SERIALIZED_CALLS_JAVA_GENERIC_URL) },
            ),
            Framework::CsharpGeneric => Some(
                FixText { recommendation: SERIALIZED_CALLS_CSHARP_GENERIC, reference_url: Some(SERIALIZED_CALLS_CSHARP_GENERIC_URL) },
            ),
            Framework::PythonGeneric => Some(
                FixText { recommendation: SERIALIZED_CALLS_PYTHON_GENERIC, reference_url: Some(SERIALIZED_CALLS_PYTHON_GENERIC_URL) },
            ),
            Framework::RustGeneric => Some(
                FixText { recommendation: SERIALIZED_CALLS_RUST_GENERIC, reference_url: Some(SERIALIZED_CALLS_RUST_GENERIC_URL) },
            ),
            Framework::GoGeneric => Some(
                FixText { recommendation: SERIALIZED_CALLS_GO_GENERIC, reference_url: Some(SERIALIZED_CALLS_GO_GENERIC_URL) },
            ),
            Framework::NodeGeneric => Some(
                FixText { recommendation: SERIALIZED_CALLS_NODE_GENERIC, reference_url: Some(SERIALIZED_CALLS_NODE_GENERIC_URL) },
            ),
            Framework::RubyGeneric => Some(
                FixText { recommendation: SERIALIZED_CALLS_RUBY_GENERIC, reference_url: Some(SERIALIZED_CALLS_RUBY_GENERIC_URL) },
            ),
            Framework::PhpLaravelEloquent => Some(
                FixText { recommendation: SERIALIZED_CALLS_PHP_LARAVEL_ELOQUENT, reference_url: Some(SERIALIZED_CALLS_PHP_LARAVEL_ELOQUENT_URL) },
            ),
            Framework::PhpGeneric => Some(
                FixText { recommendation: SERIALIZED_CALLS_PHP_GENERIC, reference_url: Some(SERIALIZED_CALLS_PHP_GENERIC_URL) },
            ),
            _ => None,
        },
    }
}

} // verus!
