use podcast_fetch::config::{fetch_url, join, PodcastDownloader};

#[test]
fn protocol_relative_reference_gets_https() {
    assert_eq!(fetch_url("//open.example/a.mp3"), "https://open.example/a.mp3");
    assert_eq!(fetch_url("http://x/a.mp3"), "http://x/a.mp3");
    assert_eq!(fetch_url("/a.mp3"), "/a.mp3");
}

#[test]
fn paths_join_with_one_slash() {
    assert_eq!(join("dir", "f.mp3"), "dir/f.mp3");
    assert_eq!(join("dir/", "f.mp3"), "dir/f.mp3");
    assert_eq!(join("", "f.mp3"), "f.mp3");
}

#[test]
fn downloader_paths() {
    let d = PodcastDownloader::new("Show", "https://example.org/list", "./podcasts/show");
    assert_eq!(d.index_file(), "./podcasts/show/.podcast_index");
    assert_eq!(d.media_path("a.mp3"), "./podcasts/show/a.mp3");
    assert_eq!(d.config().name, "Show");
    assert_eq!(d.config().url, "https://example.org/list");
    assert_eq!(d.config().download_folder, "./podcasts/show");
}
