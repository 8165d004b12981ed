use rtorrent_status_file_modifier::{has_suffix, is_session_file, is_status_file, plan_file, FilePlan};

#[test]
fn status_file_suffix() {
    assert!(is_status_file(b"abc.torrent.rtorrent"));
    assert!(!is_status_file(b"abc.torrent"));
    assert!(!is_status_file(b"abc.torrent.libtorrent_resume"));
    assert!(!is_status_file(b"torrent.rtorrent"));
}

#[test]
fn session_file_suffixes() {
    assert!(is_session_file(b"a.torrent"));
    assert!(is_session_file(b"a.torrent.rtorrent"));
    assert!(is_session_file(b"a.torrent.libtorrent_resume"));
    assert!(!is_session_file(b"a.txt"));
}

#[test]
fn suffix_longer_than_name() {
    assert!(!has_suffix(b"nt", b"torrent"));
    assert!(has_suffix(b"x", b""));
}

#[test]
fn plans_with_and_without_staging() {
    assert_eq!(plan_file(b"a.torrent.rtorrent", false), FilePlan { stage: false, rewrite: true });
    assert_eq!(plan_file(b"a.torrent.rtorrent", true), FilePlan { stage: true, rewrite: true });
    assert_eq!(plan_file(b"a.torrent", true), FilePlan { stage: true, rewrite: false });
    assert_eq!(plan_file(b"a.torrent.libtorrent_resume", false), FilePlan { stage: false, rewrite: false });
    assert_eq!(plan_file(b"notes.txt", true), FilePlan { stage: false, rewrite: false });
}
