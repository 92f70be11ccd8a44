use reachcore::models::{
    Config, Container, EchoHandler, Handler, HttpMethod, JsonHandler, LogLevel, Point,
    ProcessResult, Request, Server,
};
use reachcore::flow::{calculate, create_logger};
use reachcore::utils::{
    chain_results, chunks, compose, enumerate_items, filter_items, flatten, format_output,
    group_by, hash_string, is_blank, map_items, parse_or_default, pipe, process_data,
    reduce_items, safe_divide, split_and_trim, truncate, try_parse, unique, Cache, QueryBuilder,
};

#[test]
fn config_new_and_validate() {
    let c = Config::new("localhost", 8080, "info");
    assert!(c.validate());
    assert!(!Config::new("", 8080, "info").validate());
    assert!(!Config::new("localhost", 0, "info").validate());
    let c2 = c.with_option("retries", "3");
    assert_eq!(c2.options.len(), 1);
    assert_eq!(c2.options[0], ("retries".to_string(), "3".to_string()));
    let c3 = c2.with_option("mode", "fast").with_option("retries", "5");
    assert_eq!(c3.options.len(), 2);
    assert_eq!(c3.options[0], ("retries".to_string(), "5".to_string()));
    assert_eq!(c3.options[1], ("mode".to_string(), "fast".to_string()));
    let d = Config::default();
    assert_eq!(d.host, "localhost");
    assert_eq!(d.port, 8080);
}

#[test]
fn server_lifecycle() {
    let mut s = Server::new(Config::default());
    assert!(!s.is_running());
    assert_eq!(s.start_message(), "Starting server on localhost:8080");
    s.start();
    s.stop();
    assert!(!s.is_running());
}

#[test]
fn handlers_answer_requests() {
    let req = Request { method: "GET".to_string(), path: "/".to_string(), body: b"ping".to_vec() };
    let echo = EchoHandler::new();
    let r = echo.handle(&req);
    assert_eq!(r.status, 200);
    assert_eq!(r.body, b"ping".to_vec());
    assert_eq!(echo.name(), "echo");
    let json = JsonHandler::new();
    let jr = json.handle(&req);
    assert_eq!(jr.status, 200);
    assert_eq!(jr.body, b"{\"processed\": true}".to_vec());
    assert_eq!(json.name(), "json");
    let req2 = echo.pre_process(req);
    assert_eq!(req2.path, "/");
}

#[test]
fn container_holds_items() {
    let mut c: Container<i32> = Container::new();
    assert!(c.is_empty());
    c.add(1);
    c.add(2);
    assert_eq!(c.len(), 2);
    assert_eq!(c.get(0), Some(&1));
    assert_eq!(c.get(5), None);
    assert_eq!(c.all(), &[1, 2]);
    let doubled = c.map(|x: &i32| x * 2);
    assert_eq!(doubled.all(), &[2, 4]);
}

#[test]
fn enums_and_point() {
    assert_eq!(LogLevel::Info, LogLevel::Info);
    assert_ne!(LogLevel::Debug, LogLevel::Error);
    assert_eq!(HttpMethod::Get.as_str(), "GET");
    assert_eq!(HttpMethod::Patch.as_str(), "PATCH");
    let r: ProcessResult<i32, String> = ProcessResult::Success(5);
    assert!(r.is_success());
    assert_eq!(r.unwrap(), 5);
    let f: ProcessResult<i32, String> = ProcessResult::Failure("no".to_string());
    assert!(!f.is_success());
    let p: ProcessResult<i32, String> = ProcessResult::Pending;
    assert!(!p.is_success());
    let pt = Point::new(3, 4);
    assert_eq!(pt, Point { x: 3, y: 4 });
}

#[test]
fn strings_are_processed() {
    assert_eq!(process_data(&["a", "b", "c"]), "A, B, C");
    assert_eq!(process_data(&[]), "");
    assert_eq!(format_output("data"), "Result: data");
    let h = hash_string("abc");
    assert!(1 <= h.len() && h.len() <= 16);
    assert_eq!(h, hash_string("abc"));
    assert_ne!(h, "abc");
    assert!(is_blank("   "));
    assert!(is_blank(""));
    assert!(!is_blank(" x "));
    assert_eq!(truncate("hi", 10), "hi");
    assert_eq!(truncate("hello world", 5), "hello...");
    assert_eq!(split_and_trim("a, b ,,c", ','), vec!["a", "b", "c"]);
}

#[test]
fn slice_helpers() {
    let nums = [1, 2, 3, 4];
    let evens = filter_items(&nums, |x: &i32| x % 2 == 0);
    assert_eq!(evens, vec![&2, &4]);
    assert_eq!(map_items(&nums, |x: &i32| x + 1), vec![2, 3, 4, 5]);
    assert_eq!(reduce_items(&nums, 0, |acc: i32, x: &i32| acc + x), 10);
    let e = enumerate_items(&nums);
    assert_eq!(e[2], (2, &3));
    assert_eq!(flatten(&[vec![1, 2], vec![3]]), vec![1, 2, 3]);
    assert_eq!(unique(&[1, 2, 1, 3, 2]), vec![1, 2, 3]);
    assert_eq!(chunks(vec![1, 2, 3, 4, 5], 2), vec![vec![1, 2], vec![3, 4], vec![5]]);
    let groups = group_by(vec![1, 2, 3, 4, 5], |x: &i32| x % 2);
    assert_eq!(groups, vec![(1, vec![1, 3, 5]), (0, vec![2, 4])]);
}

#[test]
fn results_and_parsing() {
    assert_eq!(safe_divide(10, 2), Some(5));
    assert_eq!(safe_divide(1, 0), None);
    let ok: Vec<Result<i32, String>> = vec![Ok(1), Ok(2)];
    assert_eq!(chain_results(ok, |v: Vec<i32>| v), Ok(vec![1, 2]));
    let bad: Vec<Result<i32, String>> = vec![Ok(1), Err("x".to_string()), Err("y".to_string())];
    assert_eq!(chain_results(bad, |v: Vec<i32>| v), Err("x".to_string()));
    let n: i32 = parse_or_default("42");
    assert_eq!(n, 42);
    let d: i32 = parse_or_default("nope");
    assert_eq!(d, 0);
    let parsers: [fn(&str) -> Result<i32, String>; 2] = [
        |s: &str| s.parse::<i32>().map_err(|_| "int".to_string()),
        |s: &str| if s == "ten" { Ok(10) } else { Err("word".to_string()) },
    ];
    assert_eq!(try_parse("7", &parsers), Some(7));
    assert_eq!(try_parse("ten", &parsers), Some(10));
    assert_eq!(try_parse("x", &parsers), None);
    let eager: [fn(&str) -> Result<i32, String>; 2] = [
        |_s: &str| Ok(1),
        |_s: &str| Ok(2),
    ];
    assert_eq!(try_parse("anything", &eager), Some(1));
}

#[test]
fn logger_formats_lines() {
    let logger = create_logger("worker");
    assert_eq!(logger.info_message("up"), "[INFO] worker: up");
    assert_eq!(logger.error_message("down"), "[ERROR] worker: down");
    assert_eq!(logger.debug_message("noisy"), None);
}

#[test]
fn calculation() {
    let add = |a: i32, b: i32| a + b;
    assert_eq!(calculate(add, 2, 3), 5);
}

#[test]
fn function_composition() {
    let inc = |x: i32| x + 1;
    let dbl = |x: i32| x * 2;
    let c = compose(inc, dbl);
    assert_eq!(c(3), 8);
    let p = pipe(dbl, inc);
    assert_eq!(p(3), 7);
}

#[test]
fn cache_operations() {
    let mut cache: Cache<u32, String> = Cache::new();
    assert!(!cache.has(&1));
    cache.set(1, "one".to_string());
    cache.set(2, "two".to_string());
    assert!(cache.has(&1));
    assert_eq!(cache.get(&1), Some(&"one".to_string()));
    assert_eq!(cache.get(&3), None);
    cache.set(1, "uno".to_string());
    assert_eq!(cache.get(&1), Some(&"uno".to_string()));
    assert_eq!(cache.remove(&2), Some("two".to_string()));
    assert_eq!(cache.remove(&2), None);
    cache.clear();
    assert!(!cache.has(&1));
}

#[test]
fn query_builder_builds_sql() {
    let q = QueryBuilder::new("users")
        .select(&["id", "name"])
        .where_clause("age > 18")
        .limit(10)
        .build();
    assert_eq!(q, "SELECT id, name FROM users WHERE age > 18 LIMIT 10");
    let all = QueryBuilder::new("logs").build();
    assert_eq!(all, "SELECT * FROM logs");
    let big = QueryBuilder::new("t").limit(1234567890).build();
    assert_eq!(big, "SELECT * FROM t LIMIT 1234567890");
}
