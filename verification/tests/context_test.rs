use std::any::{Any, TypeId};
use std::collections::hash_map::DefaultHasher;
use std::hash::{Hash, Hasher};
use std::sync::atomic::{AtomicBool, AtomicU32, AtomicUsize, Ordering::SeqCst};
use std::sync::{Arc, Mutex};

use rsspec::context::Context;
use rsspec::fixtures::{FixtureScope, FixtureStore, StoreError};
use rsspec::runner::Outcome;
use rsspec::session::{run_inline, SuiteRun, Verdict};

/// The fixture under `k`, when one is in scope.
fn fixture<V>(s: &FixtureStore<V>, k: u64) -> Option<&V> {
    if s.has_setup_value(k) {
        Some(s.with_setup_value(k))
    } else {
        None
    }
}

type Store = FixtureStore<Box<dyn Any>>;
type Body = Box<dyn Fn(&mut Store) -> Outcome>;
type Ctx = Context<Body>;

/// The store key of fixtures of type `T`.
fn key<T: 'static>() -> u64 {
    let mut h = DefaultHasher::new();
    TypeId::of::<T>().hash(&mut h);
    h.finish()
}

fn outcome(r: Result<(), String>) -> Outcome {
    match r {
        Ok(()) => Outcome::Pass,
        Err(m) => Outcome::Fail(m),
    }
}

fn ensure(cond: bool, msg: &str) -> Result<(), String> {
    if cond {
        Ok(())
    } else {
        Err(msg.to_string())
    }
}

fn absent<T>() -> Outcome {
    Outcome::Fail("rsspec: no value of type requested — add a returning before_each or before_all".to_string())
}

/// A body that needs no fixture.
fn plain(f: impl Fn() + 'static) -> Body {
    Box::new(move |_| {
        f();
        Outcome::Pass
    })
}

/// A body that checks something.
fn check(f: impl Fn() -> Result<(), String> + 'static) -> Body {
    Box::new(move |_| outcome(f()))
}

/// A body reading the fixture of type `T`.
fn with<T: 'static>(f: impl Fn(&T) -> Result<(), String> + 'static) -> Body {
    Box::new(move |s| match fixture(s, key::<T>()).and_then(|b| b.downcast_ref::<T>()) {
        Some(v) => outcome(f(v)),
        None => absent::<T>(),
    })
}

fn store<T: 'static>(s: &mut Store, scope: FixtureScope, v: T) -> Outcome {
    match s.store_before_value(scope, key::<T>(), Box::new(v)) {
        Ok(()) => Outcome::Pass,
        Err(StoreError::Collision) => Outcome::Fail("rsspec: two before_all hooks in one scope return one type".to_string()),
        Err(StoreError::NoScope) => Outcome::Fail("rsspec: no active scope".to_string()),
    }
}

/// A returning hook: stores what `f` returns.
fn make<T: 'static>(scope: FixtureScope, f: impl Fn() -> T + 'static) -> Body {
    Box::new(move |s| store(s, scope, f()))
}

/// A returning hook that reads the fixture of type `U`.
fn derive<U: 'static, T: 'static>(scope: FixtureScope, f: impl Fn(&U) -> T + 'static) -> Body {
    Box::new(move |s| {
        let v = match fixture(s, key::<U>()).and_then(|b| b.downcast_ref::<U>()) {
            Some(u) => f(u),
            None => return absent::<U>(),
        };
        store(s, scope, v)
    })
}

/// Drive a future to completion on a single-threaded runtime.
fn block<T>(f: impl std::future::Future<Output = T>) -> T {
    tokio::runtime::Builder::new_current_thread().build().expect("runtime").block_on(f)
}

fn inline_verdict(f: impl FnOnce(&mut Ctx)) -> (SuiteRun, Verdict) {
    run_inline(f, &|| 0u64, &|_s: &mut Store| Outcome::Pass)
}

/// Run inline; fail the test as the run would.
fn inline(f: impl FnOnce(&mut Ctx)) -> SuiteRun {
    let (run, verdict) = inline_verdict(f);
    if let Verdict::Panic(m) = verdict {
        panic!("{}", m);
    }
    run
}

fn fails(f: impl FnOnce(&mut Ctx)) -> bool {
    matches!(inline_verdict(f).1, Verdict::Panic(_))
}

const ALL: FixtureScope = FixtureScope::PerScope;
const EACH: FixtureScope = FixtureScope::PerTest;

// ---- fixtures read by hooks ----

#[test]
fn inner_before_all_reads_outer_fixture_and_derives_results() {
    struct TestEnv {
        base: u32,
    }
    struct CoreResults {
        affected: u32,
        fixed: u32,
    }

    inline(|ctx| {
        ctx.describe("PURL Lookup", |ctx| {
            ctx.before_all(make(ALL, || TestEnv { base: 100 }));
            ctx.describe("core lookup", |ctx| {
                ctx.before_all(derive(ALL, |env: &TestEnv| CoreResults { affected: env.base + 1, fixed: env.base }));
                ctx.it("derives affected from the env", with(|r: &CoreResults| ensure(r.affected == 101, "affected")));
                ctx.it("derives fixed from the env", with(|r: &CoreResults| ensure(r.fixed == 100, "fixed")));
            });
        });
    });
}

#[test]
fn after_all_reads_scope_fixture() {
    struct TestEnv {
        id: u32,
    }
    let seen = Arc::new(Mutex::new(Vec::<u32>::new()));
    let seen_hook = Arc::clone(&seen);

    inline(move |ctx| {
        ctx.describe("env", |ctx| {
            ctx.before_all(make(ALL, || TestEnv { id: 7 }));
            ctx.it("uses the env", with(|_e: &TestEnv| Ok(())));
            ctx.after_all(with(move |e: &TestEnv| {
                seen_hook.lock().unwrap().push(e.id);
                Ok(())
            }));
        });
    });

    assert_eq!(*seen.lock().unwrap(), vec![7], "after_all saw the fixture");
}

#[test]
fn before_each_reads_before_all_fixture() {
    struct Env {
        base: u32,
    }
    struct Conn {
        port: u32,
    }

    inline(|ctx| {
        ctx.describe("db", |ctx| {
            ctx.before_all(make(ALL, || Env { base: 5432 }));
            ctx.before_each(derive(EACH, |env: &Env| Conn { port: env.base + 1 }));
            ctx.it("conn is derived from env", with(|c: &Conn| ensure(c.port == 5433, "port")));
        });
    });
}

#[test]
fn hook_fixture_param_test_just_before_each_reads_fixture_once_per_spec() {
    struct Env {
        id: u32,
    }
    let seen = Arc::new(Mutex::new(Vec::<u32>::new()));
    let seen_hook = Arc::clone(&seen);

    inline(move |ctx| {
        ctx.describe("x", |ctx| {
            ctx.before_all(make(ALL, || Env { id: 3 }));
            ctx.just_before_each(with(move |e: &Env| {
                seen_hook.lock().unwrap().push(e.id);
                Ok(())
            }));
            ctx.it("a", plain(|| {}));
            ctx.it("b", plain(|| {}));
        });
    });

    assert_eq!(*seen.lock().unwrap(), vec![3, 3], "ran once per spec");
}

#[test]
fn no_param_hooks_still_work() {
    let after = Arc::new(Mutex::new(false));
    let after_hook = Arc::clone(&after);

    inline(move |ctx| {
        ctx.describe("compat", |ctx| {
            ctx.before_all(make(ALL, || "cfg".to_string()));
            ctx.before_each(plain(|| {}));
            ctx.after_all(plain(move || {
                *after_hook.lock().unwrap() = true;
            }));
            ctx.it("reads the returning fixture", with(|c: &String| ensure(c == "cfg", "cfg")));
        });
    });

    assert!(*after.lock().unwrap(), "no-arg after_all ran");
}

#[test]
#[should_panic(expected = "no value of type")]
fn reading_absent_fixture_panics() {
    struct Absent;

    inline(|ctx| {
        ctx.describe("x", |ctx| {
            ctx.before_all(derive(ALL, |_a: &Absent| 0u32));
            ctx.it("never reached", with(|_n: &u32| Ok(())));
        });
    });
}

#[test]
fn two_same_type_before_all_in_one_scope_is_rejected() {
    assert!(
        fails(|ctx| {
            ctx.describe("collision", |ctx| {
                ctx.before_all(make(ALL, || 1u32));
                ctx.before_all(make(ALL, || 2u32));
                ctx.it("never runs", with(|_n: &u32| Ok(())));
            });
        }),
        "two same-type before_all in one scope must fail the run, not silently keep the last value"
    );
}

#[test]
fn same_type_before_all_shadowing_across_scopes_is_allowed() {
    inline(|ctx| {
        ctx.describe("outer", |ctx| {
            ctx.before_all(make(ALL, || 1u32));
            ctx.describe("inner", |ctx| {
                ctx.before_all(make(ALL, || 2u32));
                ctx.it("reads the inner value", with(|n: &u32| ensure(*n == 2, "inner")));
            });
            ctx.it("reads the outer value", with(|n: &u32| ensure(*n == 1, "outer")));
        });
    });
}

// ---- hook counts ----

#[test]
fn before_all_runs_once_across_nested_contexts() {
    static BEFORE_ALL: AtomicU32 = AtomicU32::new(0);
    static SPECS: AtomicU32 = AtomicU32::new(0);
    BEFORE_ALL.store(0, SeqCst);
    SPECS.store(0, SeqCst);
    let spec = || {
        plain(|| {
            SPECS.fetch_add(1, SeqCst);
        })
    };

    inline(|ctx| {
        ctx.describe("expensive parent", |ctx| {
            ctx.before_all(plain(|| {
                BEFORE_ALL.fetch_add(1, SeqCst);
            }));
            ctx.context("context a", |ctx| {
                ctx.it("a1", spec());
                ctx.it("a2", spec());
            });
            ctx.context("context b", |ctx| {
                ctx.it("b1", spec());
                ctx.context("deeply nested c", |ctx| {
                    ctx.it("c1", spec());
                    ctx.it("c2", spec());
                });
            });
        });
    });

    assert_eq!(SPECS.load(SeqCst), 5, "all five specs ran");
    assert_eq!(BEFORE_ALL.load(SeqCst), 1, "before_all in the parent describe must run exactly once");
}

#[test]
fn before_each_runs_once_per_spec_not_once_per_scope() {
    static BEFORE_EACH: AtomicU32 = AtomicU32::new(0);
    BEFORE_EACH.store(0, SeqCst);

    inline(|ctx| {
        ctx.describe("parent", |ctx| {
            ctx.before_each(plain(|| {
                BEFORE_EACH.fetch_add(1, SeqCst);
            }));
            ctx.context("a", |ctx| {
                ctx.it("a1", plain(|| {}));
                ctx.it("a2", plain(|| {}));
            });
            ctx.context("b", |ctx| {
                ctx.it("b1", plain(|| {}));
            });
        });
    });

    assert_eq!(BEFORE_EACH.load(SeqCst), 3, "before_each runs once per spec");
}

#[test]
fn sibling_describes_each_run_their_own_before_all() {
    static ACTS: AtomicU32 = AtomicU32::new(0);
    ACTS.store(0, SeqCst);

    inline(|ctx| {
        for name in ["spec one", "spec two", "spec three"] {
            ctx.describe(name, |ctx| {
                ctx.before_all(plain(|| {
                    ACTS.fetch_add(1, SeqCst);
                }));
                ctx.it("asserts", plain(|| {}));
            });
        }
    });

    assert_eq!(ACTS.load(SeqCst), 3, "each sibling describe runs its own before_all");
}

// ---- runtime semantics ----

fn rec(log: &Arc<Mutex<Vec<&'static str>>>, label: &'static str) -> Body {
    let log = Arc::clone(log);
    plain(move || log.lock().expect("log mutex poisoned").push(label))
}

#[test]
fn hooks_fire_in_documented_order_across_nested_scopes() {
    let log: Arc<Mutex<Vec<&'static str>>> = Arc::new(Mutex::new(Vec::new()));
    let l = Arc::clone(&log);

    inline(move |ctx| {
        ctx.describe("outer", |ctx| {
            ctx.before_each(rec(&l, "be:outer"));
            ctx.just_before_each(rec(&l, "jbe:outer"));
            ctx.after_each(rec(&l, "ae:outer"));
            ctx.describe("inner", |ctx| {
                ctx.before_each(rec(&l, "be:inner"));
                ctx.just_before_each(rec(&l, "jbe:inner"));
                ctx.after_each(rec(&l, "ae:inner"));
                ctx.it("spec", rec(&l, "body"));
            });
        });
    });

    let seq = log.lock().expect("log mutex poisoned").clone();
    assert_eq!(seq, vec!["be:outer", "be:inner", "jbe:outer", "jbe:inner", "body", "ae:inner", "ae:outer"]);
}

#[test]
fn spec_panic_runs_after_each_and_does_not_abort_siblings() {
    let after_each_runs = Arc::new(AtomicUsize::new(0));
    let sibling_ran = Arc::new(AtomicBool::new(false));
    let ae = Arc::clone(&after_each_runs);
    let sr = Arc::clone(&sibling_ran);

    let failed = fails(move |ctx| {
        ctx.describe("group", |ctx| {
            ctx.after_each(plain(move || {
                ae.fetch_add(1, SeqCst);
            }));
            ctx.it("panics", check(|| Err("boom".to_string())));
            ctx.it("still runs", plain(move || sr.store(true, SeqCst)));
        });
    });

    assert!(failed, "a failing spec must fail the suite");
    assert!(sibling_ran.load(SeqCst), "a sibling spec must still run after an earlier spec failed");
    assert_eq!(after_each_runs.load(SeqCst), 2, "after_each must run for both specs");
}

#[test]
fn retries_exhausted_fails_the_spec() {
    static ATTEMPTS: AtomicU32 = AtomicU32::new(0);
    ATTEMPTS.store(0, SeqCst);

    let failed = fails(|ctx| {
        ctx.it(
            "always fails",
            check(|| {
                ATTEMPTS.fetch_add(1, SeqCst);
                Err("never passes".to_string())
            }),
        )
        .retries(2);
    });

    assert!(failed, "a spec failing every attempt must fail the suite");
    assert_eq!(ATTEMPTS.load(SeqCst), 3, "retries(2) means 3 runs");
}

#[test]
fn runtime_semantics_test_must_pass_repeatedly_fails_on_a_flaky_attempt() {
    static ATTEMPTS: AtomicU32 = AtomicU32::new(0);
    ATTEMPTS.store(0, SeqCst);

    let failed = fails(|ctx| {
        ctx.it(
            "flaky",
            check(|| {
                let n = ATTEMPTS.fetch_add(1, SeqCst);
                ensure(n == 0, "passes the first time, fails the second required pass")
            }),
        )
        .must_pass_repeatedly(3);
    });

    assert!(failed, "must_pass_repeatedly must fail when a later required pass fails");
    assert_eq!(ATTEMPTS.load(SeqCst), 2, "execution stops at the first failing repeat");
}

#[test]
fn fit_focuses_and_skips_non_focused_siblings() {
    let focused_ran = Arc::new(AtomicBool::new(false));
    let sibling_ran = Arc::new(AtomicBool::new(false));
    let fr = Arc::clone(&focused_ran);
    let sr = Arc::clone(&sibling_ran);

    inline(move |ctx| {
        ctx.describe("group", |ctx| {
            ctx.fit("focused", plain(move || fr.store(true, SeqCst)));
            ctx.it("not focused", plain(move || sr.store(true, SeqCst)));
        });
    });

    assert!(focused_ran.load(SeqCst), "the focused spec must run");
    assert!(!sibling_ran.load(SeqCst), "non-focused siblings must be skipped");
}

#[test]
fn fdescribe_focuses_its_subtree_and_skips_sibling_describes() {
    let inside_ran = Arc::new(AtomicBool::new(false));
    let outside_ran = Arc::new(AtomicBool::new(false));
    let ir = Arc::clone(&inside_ran);
    let or = Arc::clone(&outside_ran);

    inline(move |ctx| {
        ctx.fdescribe("focused group", |ctx| {
            ctx.it("runs", plain(move || ir.store(true, SeqCst)));
        });
        ctx.describe("other group", |ctx| {
            ctx.it("skipped", plain(move || or.store(true, SeqCst)));
        });
    });

    assert!(inside_ran.load(SeqCst), "specs inside the focused describe must run");
    assert!(!outside_ran.load(SeqCst), "specs in sibling describes must be skipped");
}

#[test]
fn skip_macro_returns_early_without_failing() {
    let reached = Arc::new(AtomicBool::new(false));
    let r = Arc::clone(&reached);

    let run = inline(move |ctx| {
        ctx.it(
            "skips midway",
            Box::new(move |_s: &mut Store| {
                r.store(true, SeqCst);
                Outcome::Skip("not ready yet".to_string())
            }),
        );
    });

    assert!(reached.load(SeqCst), "the spec body runs up to the skip");
    assert_eq!(run.result.skipped, 1);
    assert_eq!(run.result.failed, 0);
}

// ---- the describe/it forms ----

#[test]
fn describe_context_it_run_nested_specs() {
    static RAN: AtomicU32 = AtomicU32::new(0);
    RAN.store(0, SeqCst);

    inline(|ctx| {
        ctx.describe("calculator", |ctx| {
            ctx.it(
                "adds",
                check(|| {
                    RAN.fetch_add(1, SeqCst);
                    ensure(2 + 3 == 5, "adds")
                }),
            );
            ctx.context("with negatives", |ctx| {
                ctx.it(
                    "handles them",
                    check(|| {
                        RAN.fetch_add(1, SeqCst);
                        ensure(-1 + 1 == 0, "negatives")
                    }),
                );
            });
        });
    });

    assert_eq!(RAN.load(SeqCst), 2, "both nested specs ran");
}

#[test]
fn before_all_fixture_flows_into_it() {
    inline(|ctx| {
        ctx.describe("api", |ctx| {
            ctx.before_all(make(ALL, || format!("shared-{}", 42)));
            ctx.it("receives the fixture by &T", with(|cfg: &String| ensure(cfg == "shared-42", "cfg")));
        });
    });
}

#[test]
fn before_all_macro_reads_parent_fixture() {
    struct Env {
        base: u32,
    }
    struct Results {
        v: u32,
    }

    inline(|ctx| {
        ctx.describe("outer", |ctx| {
            ctx.before_all(make(ALL, || Env { base: 10 }));
            ctx.describe("inner", |ctx| {
                ctx.before_all(derive(ALL, |env: &Env| Results { v: env.base + 5 }));
                ctx.it("derives from the parent fixture", with(|r: &Results| ensure(r.v == 15, "v")));
            });
        });
    });
}

#[test]
fn after_all_macro_reads_fixture() {
    struct Env {
        id: u32,
    }
    let seen = Arc::new(Mutex::new(Vec::<u32>::new()));
    let seen_hook = Arc::clone(&seen);

    inline(move |ctx| {
        ctx.describe("x", |ctx| {
            ctx.before_all(make(ALL, || Env { id: 9 }));
            ctx.it("uses env", with(|_e: &Env| Ok(())));
            ctx.after_all(with(move |e: &Env| {
                seen_hook.lock().unwrap().push(e.id);
                Ok(())
            }));
        });
    });

    assert_eq!(*seen.lock().unwrap(), vec![9]);
}

#[test]
fn before_each_runs_once_per_spec() {
    static HOOK: AtomicU32 = AtomicU32::new(0);
    HOOK.store(0, SeqCst);

    inline(|ctx| {
        ctx.describe("hooked", |ctx| {
            ctx.before_each(plain(|| {
                HOOK.fetch_add(1, SeqCst);
            }));
            ctx.it("one", check(|| ensure(1 == 1, "one")));
            ctx.it("two", check(|| ensure(2 == 2, "two")));
        });
    });

    assert_eq!(HOOK.load(SeqCst), 2, "before_each fired once per spec");
}

#[test]
fn xit_body_never_runs() {
    static RAN: AtomicU32 = AtomicU32::new(0);
    RAN.store(0, SeqCst);

    let run = inline(|ctx| {
        ctx.describe("pending", |ctx| {
            ctx.xit(
                "not yet",
                check(|| {
                    RAN.fetch_add(1, SeqCst);
                    Err("xit body must not run".to_string())
                }),
            );
        });
    });

    assert_eq!(RAN.load(SeqCst), 0, "xit body skipped");
    assert_eq!(run.result.pending, 1);
}

#[test]
fn fit_focuses_only_marked_spec() {
    static FOCUSED: AtomicU32 = AtomicU32::new(0);
    static OTHER: AtomicU32 = AtomicU32::new(0);
    FOCUSED.store(0, SeqCst);
    OTHER.store(0, SeqCst);

    inline(|ctx| {
        ctx.describe("focus", |ctx| {
            ctx.fit(
                "runs",
                plain(|| {
                    FOCUSED.fetch_add(1, SeqCst);
                }),
            );
            ctx.it(
                "skipped under focus",
                plain(|| {
                    OTHER.fetch_add(1, SeqCst);
                }),
            );
        });
    });

    assert_eq!(FOCUSED.load(SeqCst), 1, "focused spec ran");
    assert_eq!(OTHER.load(SeqCst), 0, "non-focused spec skipped");
}

#[test]
fn passing_assertion_runs_the_spec() {
    static RAN: AtomicU32 = AtomicU32::new(0);
    RAN.store(0, SeqCst);

    inline(|ctx| {
        ctx.describe("math", |ctx| {
            ctx.it("two plus two is four", check(|| ensure(2 + 2 == 4, "math")));
            ctx.it(
                "ran marker",
                plain(|| {
                    RAN.fetch_add(1, SeqCst);
                }),
            );
        });
    });

    assert_eq!(RAN.load(SeqCst), 1);
}

#[test]
fn failing_assertion_fails_the_spec() {
    let failed = fails(|ctx| {
        ctx.describe("math", |ctx| {
            ctx.it("one is not two", check(|| ensure(1 == 2, "assertion `left == right` failed")));
        });
    });
    assert!(failed, "a failing assertion must fail the spec");
}

#[test]
fn retries_decorator_recovers_a_flaky_spec() {
    static ATTEMPTS: AtomicU32 = AtomicU32::new(0);
    ATTEMPTS.store(0, SeqCst);

    inline(|ctx| {
        ctx.describe("flaky", |ctx| {
            ctx.it(
                "passes on the third attempt",
                check(|| {
                    let n = ATTEMPTS.fetch_add(1, SeqCst);
                    ensure(n >= 2, "fail the first two attempts")
                }),
            )
            .retries(3);
        });
    });

    assert_eq!(ATTEMPTS.load(SeqCst), 3, "retried until it passed");
}

#[test]
fn tags_decorator_lowers_to_labels() {
    static RAN: AtomicU32 = AtomicU32::new(0);
    RAN.store(0, SeqCst);

    inline(|ctx| {
        ctx.describe("tagged", |ctx| {
            ctx.it(
                "carries labels",
                plain(|| {
                    RAN.fetch_add(1, SeqCst);
                }),
            )
            .labels(&["integration", "slow"]);
        });
    });

    assert_eq!(RAN.load(SeqCst), 1);
}

#[test]
fn fdescribe_focuses_its_whole_container() {
    static IN_FOCUS: AtomicU32 = AtomicU32::new(0);
    static SIBLING: AtomicU32 = AtomicU32::new(0);
    IN_FOCUS.store(0, SeqCst);
    SIBLING.store(0, SeqCst);
    let focused = || {
        plain(|| {
            IN_FOCUS.fetch_add(1, SeqCst);
        })
    };

    inline(|ctx| {
        ctx.describe("suite", |ctx| {
            ctx.fdescribe("focused group", |ctx| {
                ctx.it("runs by container focus", focused());
                ctx.context("nested under focus", |ctx| {
                    ctx.it("also runs", focused());
                });
            });
            ctx.describe("unfocused sibling", |ctx| {
                ctx.it(
                    "is excluded",
                    plain(|| {
                        SIBLING.fetch_add(1, SeqCst);
                    }),
                );
            });
        });
    });

    assert_eq!(IN_FOCUS.load(SeqCst), 2, "all focused specs ran");
    assert_eq!(SIBLING.load(SeqCst), 0, "sibling excluded");
}

#[test]
fn xdescribe_skips_its_whole_container() {
    static RAN: AtomicU32 = AtomicU32::new(0);
    RAN.store(0, SeqCst);
    let never = || {
        check(|| {
            RAN.fetch_add(1, SeqCst);
            Err("a spec inside xdescribe must not run".to_string())
        })
    };

    let run = inline(|ctx| {
        ctx.describe("suite", |ctx| {
            ctx.xdescribe("pending group", |ctx| {
                ctx.it("never runs", never());
                ctx.context("nested deeper", |ctx| {
                    ctx.it("also never runs", never());
                });
            });
        });
    });

    assert_eq!(RAN.load(SeqCst), 0, "all specs skipped");
    assert_eq!(run.result.pending, 2);
}

#[test]
fn macros_test_must_pass_repeatedly_fails_on_a_flaky_attempt() {
    static ATTEMPTS: AtomicU32 = AtomicU32::new(0);
    ATTEMPTS.store(0, SeqCst);

    let failed = fails(|ctx| {
        ctx.describe("unstable", |ctx| {
            ctx.it(
                "passes once then fails the second run",
                check(|| {
                    let n = ATTEMPTS.fetch_add(1, SeqCst);
                    ensure(n == 0, "only the first attempt passes")
                }),
            )
            .must_pass_repeatedly(3);
        });
    });

    assert!(failed, "a failing repeat fails the spec");
    assert_eq!(ATTEMPTS.load(SeqCst), 2, "ran twice then stopped");
}

#[test]
fn it_body_forms_coexist() {
    static BLOCK_RAN: AtomicU32 = AtomicU32::new(0);
    BLOCK_RAN.store(0, SeqCst);

    inline(|ctx| {
        ctx.describe("arm dispatch", |ctx| {
            ctx.before_all(make(ALL, || 7u32));
            ctx.it(
                "block arm reads the fixture implicitly",
                with(|n: &u32| {
                    let collected: Vec<u32> = (0..3).collect();
                    BLOCK_RAN.fetch_add(1, SeqCst);
                    ensure(collected.len() == 3 && *n == 7, "block arm")
                }),
            );
            ctx.it("closure arm reads &T", with(|n: &u32| ensure(*n == 7, "closure arm")));
            ctx.it("assertion-block arm runs", check(|| ensure(1 + 1 == 2, "assertion arm")));
        });
    });

    assert_eq!(BLOCK_RAN.load(SeqCst), 1, "the block arm executed its statements");
}

async fn async_add(a: i32, b: i32) -> i32 {
    a + b
}

#[test]
fn async_it_arm_runs_on_a_runtime() {
    static RAN: AtomicU32 = AtomicU32::new(0);
    RAN.store(0, SeqCst);

    inline(|ctx| {
        ctx.describe("async", |ctx| {
            ctx.async_it(
                "awaits a future",
                check(|| {
                    let v = block(async_add(2, 3));
                    RAN.fetch_add(1, SeqCst);
                    ensure(v == 5, "async add")
                }),
            );
        });
    });

    assert_eq!(RAN.load(SeqCst), 1);
}

// ---- fixture seams ----

#[derive(Clone)]
struct Probe {
    teardowns: Arc<AtomicU32>,
}

#[test]
fn after_all_async_body_reads_an_enclosing_fixture() {
    static OBSERVED: AtomicU32 = AtomicU32::new(99);
    OBSERVED.store(99, SeqCst);

    inline(|ctx| {
        ctx.describe("async teardown", |ctx| {
            ctx.async_before_all(make(ALL, || block(async { Probe { teardowns: Arc::new(AtomicU32::new(0)) } })));
            ctx.it("the resource starts open", with(|res: &Probe| ensure(res.teardowns.load(SeqCst) == 0, "open")));
            ctx.async_after_all(with(|res: &Probe| {
                block(async {
                    res.teardowns.fetch_add(1, SeqCst);
                });
                OBSERVED.store(res.teardowns.load(SeqCst), SeqCst);
                Ok(())
            }));
        });
    });

    assert_eq!(OBSERVED.load(SeqCst), 1, "async after_all read the fixture");
}

#[test]
fn after_each_and_just_before_each_accept_async_bodies() {
    static JBE: AtomicU32 = AtomicU32::new(0);
    static AE: AtomicU32 = AtomicU32::new(0);
    JBE.store(0, SeqCst);
    AE.store(0, SeqCst);

    inline(|ctx| {
        ctx.describe("async per-spec hooks", |ctx| {
            ctx.async_just_before_each(plain(|| {
                block(async {});
                JBE.fetch_add(1, SeqCst);
            }));
            ctx.async_after_each(plain(|| {
                block(async {});
                AE.fetch_add(1, SeqCst);
            }));
            ctx.it("a", check(|| ensure(1 + 1 == 2, "a")));
            ctx.it("b", check(|| ensure(2 + 2 == 4, "b")));
        });
    });

    assert_eq!(JBE.load(SeqCst), 2, "async just_before_each ran per spec");
    assert_eq!(AE.load(SeqCst), 2, "async after_each ran per spec");
}

#[test]
fn it_decorators_apply() {
    static ATTEMPTS: AtomicU32 = AtomicU32::new(0);
    ATTEMPTS.store(0, SeqCst);

    inline(|ctx| {
        ctx.describe("decorated", |ctx| {
            ctx.it(
                "retries until it passes",
                check(|| {
                    let n = ATTEMPTS.fetch_add(1, SeqCst);
                    ensure(n >= 2, "fail the first two attempts")
                }),
            )
            .retries(3);
            ctx.it("carries labels and a timeout", check(|| ensure(2 + 2 == 4, "math")))
                .labels(&["integration", "slow"])
                .timeout(1000);
        });
    });

    assert_eq!(ATTEMPTS.load(SeqCst), 3, "retried until it passed");
}

#[test]
fn after_all_reads_the_scope_fixture() {
    static AFTER_SAW: AtomicU32 = AtomicU32::new(0);
    AFTER_SAW.store(0, SeqCst);

    inline(|ctx| {
        ctx.describe("teardown", |ctx| {
            ctx.before_all(make(ALL, || 7u32));
            ctx.it("uses the fixture", with(|id: &u32| ensure(*id == 7, "id")));
            ctx.after_all(with(|id: &u32| {
                AFTER_SAW.store(*id, SeqCst);
                Ok(())
            }));
        });
    });

    assert_eq!(AFTER_SAW.load(SeqCst), 7, "after_all read the fixture");
}

#[test]
fn decorators_and_hooks_just_before_each_reads_fixture_once_per_spec() {
    static JBE_SUM: AtomicU32 = AtomicU32::new(0);
    JBE_SUM.store(0, SeqCst);

    inline(|ctx| {
        ctx.describe("just-before-each", |ctx| {
            ctx.before_all(make(ALL, || 5u32));
            ctx.just_before_each(with(|base: &u32| {
                JBE_SUM.fetch_add(*base, SeqCst);
                Ok(())
            }));
            ctx.it("a", plain(|| {}));
            ctx.it("b", plain(|| {}));
        });
    });

    assert_eq!(JBE_SUM.load(SeqCst), 10, "ran once per spec (2 x base=5)");
}

struct Account {
    balance: u32,
}

struct Statement {
    available: u32,
}

#[test]
fn inner_before_all_chains_from_outer_via_explicit_closure() {
    inline(|ctx| {
        ctx.describe("account", |ctx| {
            ctx.before_all(make(ALL, || Account { balance: 100 }));
            ctx.describe("statement", |ctx| {
                ctx.before_all(derive(ALL, |account: &Account| Statement { available: account.balance - 25 }));
                ctx.it("derives availability", with(|s: &Statement| ensure(s.available == 75, "available")));
            });
        });
    });
}

#[test]
fn after_all_reads_fixture_via_explicit_closure() {
    let seen = Arc::new(Mutex::new(Vec::<u32>::new()));
    let hook = Arc::clone(&seen);

    inline(move |ctx| {
        ctx.describe("account", |ctx| {
            ctx.before_all(make(ALL, || Account { balance: 100 }));
            ctx.it("uses the account", with(|a: &Account| ensure(a.balance == 100, "balance")));
            ctx.after_all(with(move |a: &Account| {
                hook.lock().unwrap().push(a.balance);
                Ok(())
            }));
        });
    });

    assert_eq!(*seen.lock().unwrap(), vec![100]);
}

struct Stats {
    sum: i32,
    count: usize,
    max: i32,
}

static BUILDS: AtomicU32 = AtomicU32::new(0);

fn summarize(values: &[i32]) -> Stats {
    BUILDS.fetch_add(1, SeqCst);
    Stats { sum: values.iter().sum(), count: values.len(), max: *values.iter().max().expect("non-empty input") }
}

#[test]
fn explicit_closure_passthrough_reads_the_fixture() {
    inline(|ctx| {
        ctx.describe("explicit reads still work", |ctx| {
            ctx.before_all(make(ALL, || summarize(&[3, 1, 4, 1, 5, 9, 2, 6])));
            ctx.it("reads the sum via closure", with(|s: &Stats| ensure(s.sum == 31, "sum")));
            ctx.it("reads the count via closure", with(|s: &Stats| ensure(s.count == 8, "count")));
        });
    });
}

#[test]
fn async_body_runs_on_the_runtime() {
    async fn doubled(n: i32) -> i32 {
        n * 2
    }
    inline(|ctx| {
        ctx.describe("async specs", |ctx| {
            ctx.async_it("awaits and asserts the result", check(|| ensure(block(doubled(21)) == 42, "doubled")));
        });
    });
}

#[test]
fn implicit_fixture_resolves_and_acts_once() {
    static MADE: AtomicU32 = AtomicU32::new(0);
    MADE.store(0, SeqCst);

    inline(|ctx| {
        ctx.describe("summary of a dataset", |ctx| {
            ctx.before_all(make(ALL, || {
                MADE.fetch_add(1, SeqCst);
                summarize(&[3, 1, 4, 1, 5, 9, 2, 6])
            }));
            ctx.it("sums every value", with(|s: &Stats| ensure(s.sum == 31, "sum")));
            ctx.it("counts the values", with(|s: &Stats| ensure(s.count == 8, "count")));
            ctx.it("finds the maximum", with(|s: &Stats| ensure(s.max == 9, "max")));
        });
    });

    assert_eq!(MADE.load(SeqCst), 1, "the fixture was built once for the whole describe");
}

#[test]
fn nested_context_reads_outer_fixture() {
    inline(|ctx| {
        ctx.describe("outer", |ctx| {
            ctx.before_all(make(ALL, || 100i32));
            ctx.context("inner", |ctx| {
                ctx.it("sees the outer fixture", with(|base: &i32| ensure(*base == 100, "base")));
            });
        });
    });
}

#[test]
fn it_reads_multiple_fixtures() {
    inline(|ctx| {
        ctx.describe("two fixtures", |ctx| {
            ctx.before_all(make(ALL, || String::from("alice")));
            ctx.before_all(make(ALL, || 30u32));
            ctx.it(
                "reads both",
                Box::new(|s: &mut Store| {
                    let name = fixture(s, key::<String>()).and_then(|b| b.downcast_ref::<String>()).cloned();
                    let age = fixture(s, key::<u32>()).and_then(|b| b.downcast_ref::<u32>()).copied();
                    outcome(ensure(name.as_deref() == Some("alice") && age == Some(30), "both fixtures"))
                }),
            );
        });
    });
}

#[test]
fn inner_before_all_derives_from_outer() {
    inline(|ctx| {
        ctx.describe("derivation", |ctx| {
            ctx.before_all(make(ALL, || 10i32));
            ctx.context("derived", |ctx| {
                ctx.before_all(derive(ALL, |base: &i32| (base * 2) as u64));
                ctx.it("is twice the base", with(|d: &u64| ensure(*d == 20, "doubled")));
            });
        });
    });
}

struct Lib {
    name: String,
    purl: Option<String>,
}

struct RouteResult {
    libs: Vec<Lib>,
}

#[test]
fn library_detection_seam_in_macro_form_acts_once() {
    static ANALYZE_CALLS: AtomicU32 = AtomicU32::new(0);
    ANALYZE_CALLS.store(0, SeqCst);

    inline(|ctx| {
        ctx.describe("library detection for the axum fixture", |ctx| {
            ctx.before_all(make(ALL, || {
                ANALYZE_CALLS.fetch_add(1, SeqCst);
                RouteResult {
                    libs: vec![Lib { name: "rusqlite".to_string(), purl: Some("pkg:cargo/rusqlite@0.31.0".to_string()) }],
                }
            }));
            ctx.it(
                "attributes rusqlite to its resolved crate",
                with(|r: &RouteResult| ensure(r.libs.iter().any(|l| l.name == "rusqlite"), "rusqlite must be attributed")),
            );
            ctx.it(
                "combines package name and version into a purl",
                with(|r: &RouteResult| {
                    let lib = r.libs.iter().find(|l| l.name == "rusqlite").unwrap();
                    ensure(lib.purl.as_deref() == Some("pkg:cargo/rusqlite@0.31.0"), "purl")
                }),
            );
        });
    });

    assert_eq!(ANALYZE_CALLS.load(SeqCst), 1, "the act runs exactly once for all specs in the describe");
}

// ---- ordered and table-driven specs ----

#[test]
fn ordered_steps_run_in_order_and_stop_at_the_first_failure() {
    let log: Arc<Mutex<Vec<&'static str>>> = Arc::new(Mutex::new(Vec::new()));
    let l = Arc::clone(&log);

    let (run, _) = inline_verdict(move |ctx| {
        ctx.ordered("workflow", |oct| {
            oct.step("one", rec(&l, "one"));
            let l2 = Arc::clone(&l);
            oct.step(
                "two",
                check(move || {
                    l2.lock().unwrap().push("two");
                    Err("broke".to_string())
                }),
            );
            oct.step("three", rec(&l, "three"));
        });
    });

    assert_eq!(*log.lock().unwrap(), vec!["one", "two"]);
    assert_eq!(run.result.failures, vec!["workflow: broke".to_string()]);
}

#[test]
fn ordered_continue_on_failure_runs_every_step() {
    let log: Arc<Mutex<Vec<&'static str>>> = Arc::new(Mutex::new(Vec::new()));
    let l = Arc::clone(&log);

    let (run, _) = inline_verdict(move |ctx| {
        ctx.ordered_continue_on_failure("workflow", |oct| {
            oct.step("one", check(|| Err("first".to_string())));
            oct.step("two", rec(&l, "two"));
        });
    });

    assert_eq!(*log.lock().unwrap(), vec!["two"]);
    assert_eq!(run.result.failures, vec!["workflow: 1 of 2 ordered steps failed".to_string()]);
}

#[test]
fn describe_table_runs_one_spec_per_case() {
    let sums = Arc::new(Mutex::new(Vec::<i32>::new()));
    let s = Arc::clone(&sums);

    let run = inline(move |ctx| {
        let table = ctx.describe_table("arithmetic").case("addition", (2i32, 3i32, 5i32)).case("subtraction", (5, -3, 2));
        table.run(ctx, |(a, b, expected): (i32, i32, i32)| {
            let s = Arc::clone(&s);
            check(move || {
                s.lock().unwrap().push(a + b);
                ensure(a + b == expected, "sum")
            })
        });
    });

    assert_eq!(*sums.lock().unwrap(), vec![5, 2]);
    assert_eq!(run.result.passed, 2);
}

#[test]
fn failure_summary_numbers_every_failure() {
    let (_, verdict) = inline_verdict(|ctx| {
        ctx.describe("g", |ctx| {
            ctx.it("a", check(|| Err("x".to_string())));
            ctx.it("b", check(|| Err("y".to_string())));
        });
    });
    match verdict {
        Verdict::Panic(m) => assert_eq!(m, "rsspec: 2 test(s) failed\n  1. g > a: x\n  2. g > b: y"),
        _ => panic!("a failing run must panic"),
    }
}

/// Keep busy for `ms` milliseconds of wall-clock time.
fn busy_for_ms(ms: u128) {
    let t = std::time::Instant::now();
    while t.elapsed().as_millis() < ms {
        std::hint::spin_loop();
    }
}

/// Run inline against the wall clock (milliseconds since the run started).
fn timed_inline_fails(f: impl FnOnce(&mut Ctx)) -> bool {
    let start = std::time::Instant::now();
    let clock = move || start.elapsed().as_millis() as u64;
    let (_, verdict) = run_inline(f, &clock, &|_s: &mut Store| Outcome::Pass);
    matches!(verdict, Verdict::Panic(_))
}

#[test]
fn timeout_fails_a_slow_spec() {
    let failed = timed_inline_fails(|ctx| {
        ctx.it(
            "too slow",
            plain(|| {
                busy_for_ms(50);
            }),
        )
        .timeout(1);
    });

    assert!(failed, "a body exceeding its timeout must fail the suite");
}

#[test]
fn timeout_decorator_fails_a_slow_spec() {
    let failed = timed_inline_fails(|ctx| {
        ctx.describe("slow", |ctx| {
            ctx.it(
                "exceeds its timeout",
                plain(|| {
                    busy_for_ms(50);
                }),
            )
            .timeout(1);
        });
    });

    assert!(failed, "slow body fails via timeout");
}

#[test]
fn build_and_run_with_parallelism_runs_unit_by_unit() {
    let config = rsspec::runner::RunConfig {
        filter: None,
        list: false,
        include_ignored: false,
        parallelism: 2,
        label_filter: None,
        fail_on_focus: false,
    };
    let (run, verdict) = rsspec::session::build_and_run(
        |ctx: &mut Ctx| {
            ctx.describe("first", |ctx| {
                ctx.it("passes", plain(|| {}));
            });
            ctx.describe("second", |ctx| {
                ctx.it("fails", check(|| Err("boom".to_string())));
            });
        },
        &config,
        true,
        &|| 0u64,
        &|_s: &mut Store| Outcome::Pass,
    );
    assert_eq!(run.result.passed, 1);
    assert_eq!(run.result.failed, 1);
    assert_eq!(run.result.failures, vec!["second > fails: boom".to_string()]);
    assert!(matches!(verdict, Verdict::Panic(_)));
}
