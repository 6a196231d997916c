use artifact_cache::cache::Cache;
use artifact_cache::deps::{CacheDeps, CacheHandleDeps};
use artifact_cache::digest::Sha256Digest;
use artifact_cache::handle::CacheHandle;
use artifact_cache::{CacheRequestId, FetchError, Message};
use std::cell::RefCell;
use std::ops::Deref;
use std::rc::Rc;

#[derive(Clone, Debug, PartialEq)]
enum TestMessage {
    FileExists(String),
    Rename(String, String),
    RemoveRecursively(String),
    MkdirRecursively(String),
    ReadDir(String),
    DownloadAndExtract(Sha256Digest, String),
    GetRequestSucceeded(CacheRequestId, String),
    GetRequestFailed(CacheRequestId),
}

#[derive(Clone, Default)]
struct TestCacheHandleDeps {}

impl CacheHandleDeps for TestCacheHandleDeps {
    // The ghost message log exists only for verification; nothing ever
    // calls it at run time.
    fn sent(&self) -> artifact_cache::deps::RefcountLog {
        unreachable!()
    }

    fn send_increment_refcount(&mut self, _digest: Sha256Digest) {}
    fn send_decrement_refcount(&mut self, _digest: Sha256Digest) {}
}

#[derive(Default)]
struct TestCacheDeps {
    messages: Vec<TestMessage>,
    existing_files: Vec<String>,
    directories: Vec<(String, Vec<String>)>,
    rng_counter: u64,
    cache_handle_deps: TestCacheHandleDeps,
}

impl CacheDeps for TestCacheDeps {
    type CacheHandleDeps = TestCacheHandleDeps;

    // The ghost effect log exists only for verification; nothing ever calls
    // it at run time.
    fn effects(&self) -> artifact_cache::effects::EffectLog {
        unreachable!()
    }

    fn rng(&mut self) -> u64 {
        self.rng_counter += 1;
        self.rng_counter
    }

    fn file_exists(&mut self, path: &String) -> bool {
        self.messages.push(TestMessage::FileExists(path.clone()));
        self.existing_files.contains(path)
    }

    fn rename(&mut self, source: &String, destination: &String) {
        self.messages
            .push(TestMessage::Rename(source.clone(), destination.clone()));
    }

    fn remove_recursively_on_thread(&mut self, path: String) {
        self.messages.push(TestMessage::RemoveRecursively(path));
    }

    fn mkdir_recursively(&mut self, path: &String) {
        self.messages.push(TestMessage::MkdirRecursively(path.clone()));
    }

    fn read_dir(&mut self, path: &String) -> Vec<String> {
        self.messages.push(TestMessage::ReadDir(path.clone()));
        self.directories
            .iter()
            .find(|(dir, _)| dir == path)
            .map(|(_, children)| children.clone())
            .unwrap_or_default()
    }

    fn download_and_extract(&mut self, digest: Sha256Digest, path: String) {
        self.messages.push(TestMessage::DownloadAndExtract(digest, path));
    }

    fn get_completed(
        &mut self,
        request_id: CacheRequestId,
        handle: Option<CacheHandle<TestCacheHandleDeps>>,
    ) {
        self.messages.push(match handle {
            Some(handle) => {
                TestMessage::GetRequestSucceeded(request_id, handle.path().to_string())
            }
            None => TestMessage::GetRequestFailed(request_id),
        });
    }

    fn cache_handle_deps(&self) -> &TestCacheHandleDeps {
        &self.cache_handle_deps
    }
}

struct Fixture {
    test_cache_deps: TestCacheDeps,
    cache: Cache,
}

impl Fixture {
    fn new(mut test_cache_deps: TestCacheDeps, bytes_used_goal: u64) -> Self {
        let cache = Cache::new("/cache/root", &mut test_cache_deps, bytes_used_goal);
        Fixture {
            test_cache_deps,
            cache,
        }
    }

    fn new_and_clear_messages(bytes_used_goal: u64) -> Self {
        let mut fixture = Fixture::new(TestCacheDeps::default(), bytes_used_goal);
        fixture.clear_messages();
        fixture
    }

    fn receive(&mut self, msg: Message) {
        self.cache.receive_message(&mut self.test_cache_deps, msg);
    }

    fn expect_messages_in_any_order(&mut self, expected: Vec<TestMessage>) {
        let mut actual = std::mem::take(&mut self.test_cache_deps.messages);
        assert_eq!(
            actual.len(),
            expected.len(),
            "Expected messages didn't match actual messages in any order.\n\
             Expected: {expected:#?}\nActual: {actual:#?}"
        );
        for message in &expected {
            match actual.iter().position(|m| m == message) {
                Some(i) => {
                    actual.remove(i);
                }
                None => panic!(
                    "Expected messages didn't match actual messages in any order.\n\
                     Missing: {message:#?}\nRemaining: {actual:#?}"
                ),
            }
        }
    }

    fn expect_messages_in_specific_order(&mut self, expected: Vec<TestMessage>) {
        assert!(
            self.test_cache_deps.messages == expected,
            "Expected messages didn't match actual messages in specific order.\n\
             Expected: {:#?}\nActual: {:#?}",
            expected,
            self.test_cache_deps.messages
        );
        self.test_cache_deps.messages.clear();
    }

    fn clear_messages(&mut self) {
        self.test_cache_deps.messages.clear();
    }
}

fn digest(n: u64) -> Sha256Digest {
    Sha256Digest::from(n)
}

fn path_buf(s: &str) -> String {
    s.to_string()
}

fn long_path(prefix: &str, n: u64) -> String {
    format!("{}/{:0>64x}", prefix, n)
}

fn short_path(prefix: &str, n: u64) -> String {
    format!("{}/{:0>16x}", prefix, n)
}

#[test]
fn get_request_for_empty() {
    let mut fixture = Fixture::new_and_clear_messages(1000);
    fixture.receive(Message::GetRequest(CacheRequestId(1), digest(42)));
    fixture.expect_messages_in_any_order(vec![TestMessage::DownloadAndExtract(
        digest(42),
        long_path("/cache/root/sha256", 42),
    )]);
    fixture.receive(Message::DownloadAndExtractCompleted(digest(42), Ok(100)));
    fixture.expect_messages_in_any_order(vec![TestMessage::GetRequestSucceeded(
        CacheRequestId(1),
        long_path("/cache/root/sha256", 42),
    )]);
}

#[test]
fn get_request_for_empty_larger_than_goal_ok_then_removes_on_decrement_refcount() {
    let mut fixture = Fixture::new_and_clear_messages(1000);
    fixture.receive(Message::GetRequest(CacheRequestId(1), digest(42)));
    fixture.expect_messages_in_any_order(vec![TestMessage::DownloadAndExtract(
        digest(42),
        long_path("/cache/root/sha256", 42),
    )]);
    fixture.receive(Message::DownloadAndExtractCompleted(digest(42), Ok(10000)));
    fixture.expect_messages_in_any_order(vec![TestMessage::GetRequestSucceeded(
        CacheRequestId(1),
        long_path("/cache/root/sha256", 42),
    )]);
    fixture.receive(Message::DecrementRefcount(digest(42)));
    fixture.expect_messages_in_any_order(vec![
        TestMessage::FileExists(short_path("/cache/root/removing", 1)),
        TestMessage::Rename(
            long_path("/cache/root/sha256", 42),
            short_path("/cache/root/removing", 1),
        ),
        TestMessage::RemoveRecursively(short_path("/cache/root/removing", 1)),
    ]);
}

#[test]
fn get_request_for_empty_larger_than_goal_does_no_remove_until_refcount_is_zero() {
    let mut fixture = Fixture::new_and_clear_messages(1000);
    fixture.receive(Message::GetRequest(CacheRequestId(1), digest(42)));
    fixture.expect_messages_in_any_order(vec![TestMessage::DownloadAndExtract(
        digest(42),
        long_path("/cache/root/sha256", 42),
    )]);
    fixture.receive(Message::DownloadAndExtractCompleted(digest(42), Ok(10000)));
    fixture.expect_messages_in_any_order(vec![TestMessage::GetRequestSucceeded(
        CacheRequestId(1),
        long_path("/cache/root/sha256", 42),
    )]);
    fixture.receive(Message::IncrementRefcount(digest(42)));
    fixture.expect_messages_in_any_order(vec![]);
    fixture.receive(Message::DecrementRefcount(digest(42)));
    fixture.expect_messages_in_any_order(vec![]);
    fixture.receive(Message::IncrementRefcount(digest(42)));
    fixture.expect_messages_in_any_order(vec![]);
    fixture.receive(Message::IncrementRefcount(digest(42)));
    fixture.expect_messages_in_any_order(vec![]);
    fixture.receive(Message::DecrementRefcount(digest(42)));
    fixture.expect_messages_in_any_order(vec![]);
    fixture.receive(Message::DecrementRefcount(digest(42)));
    fixture.expect_messages_in_any_order(vec![]);
    fixture.receive(Message::DecrementRefcount(digest(42)));
    fixture.expect_messages_in_any_order(vec![
        TestMessage::FileExists(short_path("/cache/root/removing", 1)),
        TestMessage::Rename(
            long_path("/cache/root/sha256", 42),
            short_path("/cache/root/removing", 1),
        ),
        TestMessage::RemoveRecursively(short_path("/cache/root/removing", 1)),
    ]);
}

#[test]
fn cache_entries_are_removed_in_lru_order() {
    let mut fixture = Fixture::new_and_clear_messages(10);
    for n in 1..=3u64 {
        fixture.receive(Message::GetRequest(CacheRequestId(n), digest(n)));
        let mut expected = vec![TestMessage::DownloadAndExtract(
            digest(n),
            long_path("/cache/root/sha256", n),
        )];
        fixture.expect_messages_in_any_order(expected.clone());
        expected.clear();
        fixture.receive(Message::DownloadAndExtractCompleted(digest(n), Ok(4)));
        expected.push(TestMessage::GetRequestSucceeded(
            CacheRequestId(n),
            long_path("/cache/root/sha256", n),
        ));
        if n == 3 {
            expected.push(TestMessage::FileExists(short_path("/cache/root/removing", 1)));
            expected.push(TestMessage::Rename(
                long_path("/cache/root/sha256", 1),
                short_path("/cache/root/removing", 1),
            ));
            expected.push(TestMessage::RemoveRecursively(short_path(
                "/cache/root/removing",
                1,
            )));
        }
        fixture.expect_messages_in_any_order(expected);
        fixture.receive(Message::DecrementRefcount(digest(n)));
        fixture.expect_messages_in_any_order(vec![]);
    }
    fixture.receive(Message::GetRequest(CacheRequestId(4), digest(4)));
    fixture.expect_messages_in_any_order(vec![TestMessage::DownloadAndExtract(
        digest(4),
        long_path("/cache/root/sha256", 4),
    )]);
    fixture.receive(Message::DownloadAndExtractCompleted(digest(4), Ok(4)));
    fixture.expect_messages_in_any_order(vec![
        TestMessage::GetRequestSucceeded(CacheRequestId(4), long_path("/cache/root/sha256", 4)),
        TestMessage::FileExists(short_path("/cache/root/removing", 2)),
        TestMessage::Rename(
            long_path("/cache/root/sha256", 2),
            short_path("/cache/root/removing", 2),
        ),
        TestMessage::RemoveRecursively(short_path("/cache/root/removing", 2)),
    ]);
    fixture.receive(Message::DecrementRefcount(digest(4)));
    fixture.expect_messages_in_any_order(vec![]);
}

#[test]
fn lru_order_augmented_by_last_use() {
    let mut fixture = Fixture::new_and_clear_messages(10);
    for n in 1..=3u64 {
        fixture.receive(Message::GetRequest(CacheRequestId(n), digest(n)));
        fixture.expect_messages_in_any_order(vec![TestMessage::DownloadAndExtract(
            digest(n),
            long_path("/cache/root/sha256", n),
        )]);
        fixture.receive(Message::DownloadAndExtractCompleted(digest(n), Ok(3)));
        fixture.expect_messages_in_any_order(vec![TestMessage::GetRequestSucceeded(
            CacheRequestId(n),
            long_path("/cache/root/sha256", n),
        )]);
    }
    fixture.receive(Message::DecrementRefcount(digest(3)));
    fixture.expect_messages_in_any_order(vec![]);
    fixture.receive(Message::DecrementRefcount(digest(2)));
    fixture.expect_messages_in_any_order(vec![]);
    fixture.receive(Message::DecrementRefcount(digest(1)));
    fixture.expect_messages_in_any_order(vec![]);
    fixture.receive(Message::GetRequest(CacheRequestId(4), digest(4)));
    fixture.expect_messages_in_any_order(vec![TestMessage::DownloadAndExtract(
        digest(4),
        long_path("/cache/root/sha256", 4),
    )]);
    fixture.receive(Message::DownloadAndExtractCompleted(digest(4), Ok(3)));
    fixture.expect_messages_in_any_order(vec![
        TestMessage::GetRequestSucceeded(CacheRequestId(4), long_path("/cache/root/sha256", 4)),
        TestMessage::FileExists(short_path("/cache/root/removing", 1)),
        TestMessage::Rename(
            long_path("/cache/root/sha256", 3),
            short_path("/cache/root/removing", 1),
        ),
        TestMessage::RemoveRecursively(short_path("/cache/root/removing", 1)),
    ]);
}

#[test]
fn multiple_get_requests_for_empty() {
    let mut fixture = Fixture::new_and_clear_messages(1000);
    fixture.receive(Message::GetRequest(CacheRequestId(1), digest(42)));
    fixture.expect_messages_in_any_order(vec![TestMessage::DownloadAndExtract(
        digest(42),
        long_path("/cache/root/sha256", 42),
    )]);
    fixture.receive(Message::GetRequest(CacheRequestId(2), digest(42)));
    fixture.expect_messages_in_any_order(vec![]);
    fixture.receive(Message::GetRequest(CacheRequestId(3), digest(42)));
    fixture.expect_messages_in_any_order(vec![]);
    fixture.receive(Message::DownloadAndExtractCompleted(digest(42), Ok(100)));
    fixture.expect_messages_in_any_order(vec![
        TestMessage::GetRequestSucceeded(CacheRequestId(1), long_path("/cache/root/sha256", 42)),
        TestMessage::GetRequestSucceeded(CacheRequestId(2), long_path("/cache/root/sha256", 42)),
        TestMessage::GetRequestSucceeded(CacheRequestId(3), long_path("/cache/root/sha256", 42)),
    ]);
}

#[test]
fn multiple_get_requests_for_empty_larger_than_goal_remove_on_last_decrement() {
    let mut fixture = Fixture::new_and_clear_messages(1000);
    fixture.receive(Message::GetRequest(CacheRequestId(1), digest(42)));
    fixture.expect_messages_in_any_order(vec![TestMessage::DownloadAndExtract(
        digest(42),
        long_path("/cache/root/sha256", 42),
    )]);
    fixture.receive(Message::GetRequest(CacheRequestId(2), digest(42)));
    fixture.expect_messages_in_any_order(vec![]);
    fixture.receive(Message::GetRequest(CacheRequestId(3), digest(42)));
    fixture.expect_messages_in_any_order(vec![]);
    fixture.receive(Message::DownloadAndExtractCompleted(digest(42), Ok(10000)));
    fixture.expect_messages_in_any_order(vec![
        TestMessage::GetRequestSucceeded(CacheRequestId(1), long_path("/cache/root/sha256", 42)),
        TestMessage::GetRequestSucceeded(CacheRequestId(2), long_path("/cache/root/sha256", 42)),
        TestMessage::GetRequestSucceeded(CacheRequestId(3), long_path("/cache/root/sha256", 42)),
    ]);
    fixture.receive(Message::DecrementRefcount(digest(42)));
    fixture.expect_messages_in_any_order(vec![]);
    fixture.receive(Message::DecrementRefcount(digest(42)));
    fixture.expect_messages_in_any_order(vec![]);
    fixture.receive(Message::DecrementRefcount(digest(42)));
    fixture.expect_messages_in_any_order(vec![
        TestMessage::FileExists(short_path("/cache/root/removing", 1)),
        TestMessage::Rename(
            long_path("/cache/root/sha256", 42),
            short_path("/cache/root/removing", 1),
        ),
        TestMessage::RemoveRecursively(short_path("/cache/root/removing", 1)),
    ]);
}

#[test]
fn get_request_for_currently_used() {
    let mut fixture = Fixture::new_and_clear_messages(10);
    fixture.receive(Message::GetRequest(CacheRequestId(1), digest(42)));
    fixture.expect_messages_in_any_order(vec![TestMessage::DownloadAndExtract(
        digest(42),
        long_path("/cache/root/sha256", 42),
    )]);
    fixture.receive(Message::DownloadAndExtractCompleted(digest(42), Ok(100)));
    fixture.expect_messages_in_any_order(vec![TestMessage::GetRequestSucceeded(
        CacheRequestId(1),
        long_path("/cache/root/sha256", 42),
    )]);
    fixture.receive(Message::GetRequest(CacheRequestId(2), digest(42)));
    fixture.expect_messages_in_any_order(vec![TestMessage::GetRequestSucceeded(
        CacheRequestId(2),
        long_path("/cache/root/sha256", 42),
    )]);
    fixture.receive(Message::DecrementRefcount(digest(42)));
    fixture.expect_messages_in_any_order(vec![]);
    fixture.receive(Message::DecrementRefcount(digest(42)));
    fixture.expect_messages_in_any_order(vec![
        TestMessage::FileExists(short_path("/cache/root/removing", 1)),
        TestMessage::Rename(
            long_path("/cache/root/sha256", 42),
            short_path("/cache/root/removing", 1),
        ),
        TestMessage::RemoveRecursively(short_path("/cache/root/removing", 1)),
    ]);
}

#[test]
fn get_request_for_cached_followed_by_big_get_does_not_evict_until_decrement_refcount() {
    let mut fixture = Fixture::new_and_clear_messages(100);
    fixture.receive(Message::GetRequest(CacheRequestId(1), digest(42)));
    fixture.expect_messages_in_any_order(vec![TestMessage::DownloadAndExtract(
        digest(42),
        long_path("/cache/root/sha256", 42),
    )]);
    fixture.receive(Message::DownloadAndExtractCompleted(digest(42), Ok(10)));
    fixture.expect_messages_in_any_order(vec![TestMessage::GetRequestSucceeded(
        CacheRequestId(1),
        long_path("/cache/root/sha256", 42),
    )]);
    fixture.receive(Message::DecrementRefcount(digest(42)));
    fixture.expect_messages_in_any_order(vec![]);
    fixture.receive(Message::GetRequest(CacheRequestId(2), digest(42)));
    fixture.expect_messages_in_any_order(vec![TestMessage::GetRequestSucceeded(
        CacheRequestId(2),
        long_path("/cache/root/sha256", 42),
    )]);
    fixture.receive(Message::GetRequest(CacheRequestId(3), digest(43)));
    fixture.expect_messages_in_any_order(vec![TestMessage::DownloadAndExtract(
        digest(43),
        long_path("/cache/root/sha256", 43),
    )]);
    fixture.receive(Message::DownloadAndExtractCompleted(digest(43), Ok(100)));
    fixture.expect_messages_in_any_order(vec![TestMessage::GetRequestSucceeded(
        CacheRequestId(3),
        long_path("/cache/root/sha256", 43),
    )]);
    fixture.receive(Message::DecrementRefcount(digest(42)));
    fixture.expect_messages_in_any_order(vec![
        TestMessage::FileExists(short_path("/cache/root/removing", 1)),
        TestMessage::Rename(
            long_path("/cache/root/sha256", 42),
            short_path("/cache/root/removing", 1),
        ),
        TestMessage::RemoveRecursively(short_path("/cache/root/removing", 1)),
    ]);
}

#[test]
fn get_request_for_empty_with_download_and_extract_failure_and_no_files_created() {
    let mut fixture = Fixture::new_and_clear_messages(1000);
    fixture.receive(Message::GetRequest(CacheRequestId(1), digest(42)));
    fixture.expect_messages_in_any_order(vec![TestMessage::DownloadAndExtract(
        digest(42),
        long_path("/cache/root/sha256", 42),
    )]);
    fixture.receive(Message::DownloadAndExtractCompleted(digest(42), Err(FetchError)));
    fixture.expect_messages_in_any_order(vec![
        TestMessage::FileExists(long_path("/cache/root/sha256", 42)),
        TestMessage::GetRequestFailed(CacheRequestId(1)),
    ]);
}

#[test]
fn get_request_for_empty_with_download_and_extract_failure_and_files_created() {
    let mut fixture = Fixture::new_and_clear_messages(1000);
    fixture
        .test_cache_deps
        .existing_files
        .push(long_path("/cache/root/sha256", 42));
    fixture.receive(Message::GetRequest(CacheRequestId(1), digest(42)));
    fixture.expect_messages_in_any_order(vec![TestMessage::DownloadAndExtract(
        digest(42),
        long_path("/cache/root/sha256", 42),
    )]);
    fixture.receive(Message::DownloadAndExtractCompleted(digest(42), Err(FetchError)));
    fixture.expect_messages_in_any_order(vec![
        TestMessage::FileExists(long_path("/cache/root/sha256", 42)),
        TestMessage::FileExists(short_path("/cache/root/removing", 1)),
        TestMessage::Rename(
            long_path("/cache/root/sha256", 42),
            short_path("/cache/root/removing", 1),
        ),
        TestMessage::RemoveRecursively(short_path("/cache/root/removing", 1)),
        TestMessage::GetRequestFailed(CacheRequestId(1)),
    ]);
}

#[test]
fn multiple_get_requests_for_empty_with_download_and_extract_failure() {
    let mut fixture = Fixture::new_and_clear_messages(1000);
    fixture
        .test_cache_deps
        .existing_files
        .push(long_path("/cache/root/sha256", 42));
    fixture.receive(Message::GetRequest(CacheRequestId(1), digest(42)));
    fixture.expect_messages_in_any_order(vec![TestMessage::DownloadAndExtract(
        digest(42),
        long_path("/cache/root/sha256", 42),
    )]);
    fixture.receive(Message::GetRequest(CacheRequestId(2), digest(42)));
    fixture.expect_messages_in_any_order(vec![]);
    fixture.receive(Message::GetRequest(CacheRequestId(3), digest(42)));
    fixture.expect_messages_in_any_order(vec![]);
    fixture.receive(Message::DownloadAndExtractCompleted(digest(42), Err(FetchError)));
    fixture.expect_messages_in_any_order(vec![
        TestMessage::FileExists(long_path("/cache/root/sha256", 42)),
        TestMessage::FileExists(short_path("/cache/root/removing", 1)),
        TestMessage::Rename(
            long_path("/cache/root/sha256", 42),
            short_path("/cache/root/removing", 1),
        ),
        TestMessage::RemoveRecursively(short_path("/cache/root/removing", 1)),
        TestMessage::GetRequestFailed(CacheRequestId(1)),
        TestMessage::GetRequestFailed(CacheRequestId(2)),
        TestMessage::GetRequestFailed(CacheRequestId(3)),
    ]);
}

#[test]
fn get_after_error_retries() {
    let mut fixture = Fixture::new_and_clear_messages(1000);
    fixture.receive(Message::GetRequest(CacheRequestId(1), digest(42)));
    fixture.expect_messages_in_any_order(vec![TestMessage::DownloadAndExtract(
        digest(42),
        long_path("/cache/root/sha256", 42),
    )]);
    fixture.receive(Message::DownloadAndExtractCompleted(digest(42), Err(FetchError)));
    fixture.expect_messages_in_any_order(vec![
        TestMessage::FileExists(long_path("/cache/root/sha256", 42)),
        TestMessage::GetRequestFailed(CacheRequestId(1)),
    ]);
    fixture.receive(Message::GetRequest(CacheRequestId(2), digest(42)));
    fixture.expect_messages_in_any_order(vec![TestMessage::DownloadAndExtract(
        digest(42),
        long_path("/cache/root/sha256", 42),
    )]);
}

#[test]
fn rename_retries_until_unique_path_name() {
    let mut fixture = Fixture::new_and_clear_messages(1000);
    fixture
        .test_cache_deps
        .existing_files
        .push(long_path("/cache/root/sha256", 42));
    fixture
        .test_cache_deps
        .existing_files
        .push(short_path("/cache/root/removing", 1));
    fixture
        .test_cache_deps
        .existing_files
        .push(short_path("/cache/root/removing", 2));
    fixture
        .test_cache_deps
        .existing_files
        .push(short_path("/cache/root/removing", 3));
    fixture.receive(Message::GetRequest(CacheRequestId(1), digest(42)));
    fixture.expect_messages_in_any_order(vec![TestMessage::DownloadAndExtract(
        digest(42),
        long_path("/cache/root/sha256", 42),
    )]);
    fixture.receive(Message::DownloadAndExtractCompleted(digest(42), Err(FetchError)));
    fixture.expect_messages_in_any_order(vec![
        TestMessage::FileExists(long_path("/cache/root/sha256", 42)),
        TestMessage::FileExists(short_path("/cache/root/removing", 1)),
        TestMessage::FileExists(short_path("/cache/root/removing", 2)),
        TestMessage::FileExists(short_path("/cache/root/removing", 3)),
        TestMessage::FileExists(short_path("/cache/root/removing", 4)),
        TestMessage::Rename(
            long_path("/cache/root/sha256", 42),
            short_path("/cache/root/removing", 4),
        ),
        TestMessage::RemoveRecursively(short_path("/cache/root/removing", 4)),
        TestMessage::GetRequestFailed(CacheRequestId(1)),
    ]);
}

#[test]
fn new_ensures_directories_exist() {
    let mut fixture = Fixture::new(TestCacheDeps::default(), 1000);
    fixture.expect_messages_in_specific_order(vec![
        TestMessage::MkdirRecursively(path_buf("/cache/root/removing")),
        TestMessage::ReadDir(path_buf("/cache/root/removing")),
        TestMessage::FileExists(path_buf("/cache/root/sha256")),
        TestMessage::MkdirRecursively(path_buf("/cache/root/sha256")),
    ]);
}

#[test]
fn new_restarts_old_removes() {
    let mut test_cache_deps = TestCacheDeps::default();
    test_cache_deps.directories.push((
        path_buf("/cache/root/removing"),
        vec![
            short_path("/cache/root/removing", 10),
            short_path("/cache/root/removing", 20),
        ],
    ));
    let mut fixture = Fixture::new(test_cache_deps, 1000);
    fixture.expect_messages_in_specific_order(vec![
        TestMessage::MkdirRecursively(path_buf("/cache/root/removing")),
        TestMessage::ReadDir(path_buf("/cache/root/removing")),
        TestMessage::RemoveRecursively(short_path("/cache/root/removing", 10)),
        TestMessage::RemoveRecursively(short_path("/cache/root/removing", 20)),
        TestMessage::FileExists(path_buf("/cache/root/sha256")),
        TestMessage::MkdirRecursively(path_buf("/cache/root/sha256")),
    ]);
}

#[test]
fn new_removes_old_sha256_if_it_exists() {
    let mut test_cache_deps = TestCacheDeps::default();
    test_cache_deps
        .existing_files
        .push(path_buf("/cache/root/sha256"));
    let mut fixture = Fixture::new(test_cache_deps, 1000);
    fixture.expect_messages_in_specific_order(vec![
        TestMessage::MkdirRecursively(path_buf("/cache/root/removing")),
        TestMessage::ReadDir(path_buf("/cache/root/removing")),
        TestMessage::FileExists(path_buf("/cache/root/sha256")),
        TestMessage::FileExists(short_path("/cache/root/removing", 1)),
        TestMessage::Rename(
            path_buf("/cache/root/sha256"),
            short_path("/cache/root/removing", 1),
        ),
        TestMessage::RemoveRecursively(short_path("/cache/root/removing", 1)),
        TestMessage::MkdirRecursively(path_buf("/cache/root/sha256")),
    ]);
}

#[test]
fn cache_handle() {
    #[derive(Debug, PartialEq)]
    enum RefcountMessage {
        IncrementRefcount(Sha256Digest),
        DecrementRefcount(Sha256Digest),
    }

    #[derive(Clone)]
    struct RecordingHandleDeps {
        messages: Rc<RefCell<Vec<RefcountMessage>>>,
    }

    impl CacheHandleDeps for RecordingHandleDeps {
        // The ghost message log exists only for verification; nothing ever
        // calls it at run time.
        fn sent(&self) -> artifact_cache::deps::RefcountLog {
            unreachable!()
        }

        fn send_increment_refcount(&mut self, digest: Sha256Digest) {
            self.messages
                .borrow_mut()
                .push(RefcountMessage::IncrementRefcount(digest))
        }

        fn send_decrement_refcount(&mut self, digest: Sha256Digest) {
            self.messages
                .borrow_mut()
                .push(RefcountMessage::DecrementRefcount(digest))
        }
    }

    let digest = digest(1);
    let path = "/foo/bar/baz";
    let messages = Rc::new(RefCell::new(Vec::new()));
    let handle = CacheHandle::new(
        RecordingHandleDeps {
            messages: messages.clone(),
        },
        digest,
        path.to_string(),
    );

    assert_eq!(handle.path(), path);

    let handle2 = handle.clone();
    handle2.clone().release();
    handle.clone().release();
    handle2.release();
    handle.release();

    assert_eq!(
        messages.borrow().deref(),
        &vec![
            RefcountMessage::IncrementRefcount(digest),
            RefcountMessage::IncrementRefcount(digest),
            RefcountMessage::DecrementRefcount(digest),
            RefcountMessage::IncrementRefcount(digest),
            RefcountMessage::DecrementRefcount(digest),
            RefcountMessage::DecrementRefcount(digest),
            RefcountMessage::DecrementRefcount(digest),
        ]
    );
}

#[test]
fn eviction_with_zero_goal_removes_immediately_on_release() {
    let mut fixture = Fixture::new_and_clear_messages(0);
    fixture.receive(Message::GetRequest(CacheRequestId(1), digest(7)));
    fixture.expect_messages_in_any_order(vec![TestMessage::DownloadAndExtract(
        digest(7),
        long_path("/cache/root/sha256", 7),
    )]);
    fixture.receive(Message::DownloadAndExtractCompleted(digest(7), Ok(1)));
    fixture.expect_messages_in_any_order(vec![TestMessage::GetRequestSucceeded(
        CacheRequestId(1),
        long_path("/cache/root/sha256", 7),
    )]);
    fixture.receive(Message::DecrementRefcount(digest(7)));
    fixture.expect_messages_in_any_order(vec![
        TestMessage::FileExists(short_path("/cache/root/removing", 1)),
        TestMessage::Rename(
            long_path("/cache/root/sha256", 7),
            short_path("/cache/root/removing", 1),
        ),
        TestMessage::RemoveRecursively(short_path("/cache/root/removing", 1)),
    ]);
}

#[test]
fn zero_byte_artifact_stays_resident() {
    let mut fixture = Fixture::new_and_clear_messages(0);
    fixture.receive(Message::GetRequest(CacheRequestId(1), digest(9)));
    fixture.expect_messages_in_any_order(vec![TestMessage::DownloadAndExtract(
        digest(9),
        long_path("/cache/root/sha256", 9),
    )]);
    fixture.receive(Message::DownloadAndExtractCompleted(digest(9), Ok(0)));
    fixture.expect_messages_in_any_order(vec![TestMessage::GetRequestSucceeded(
        CacheRequestId(1),
        long_path("/cache/root/sha256", 9),
    )]);
    fixture.receive(Message::DecrementRefcount(digest(9)));
    fixture.expect_messages_in_any_order(vec![]);
    fixture.receive(Message::GetRequest(CacheRequestId(2), digest(9)));
    fixture.expect_messages_in_any_order(vec![TestMessage::GetRequestSucceeded(
        CacheRequestId(2),
        long_path("/cache/root/sha256", 9),
    )]);
}
