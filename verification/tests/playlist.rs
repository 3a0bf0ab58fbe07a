//! Channel lists.

use itv_relay::playlist::{
    extract_attr, find_channel, logo_file, logo_url, parse, parse_slug, render_master, Channel,
    LookupError,
};

const LIST: &str = "#EXTM3U\n#EXTINF:-1 tvg-id=\"c1\" tvg-name=\"CCTV1\",CCTV-1\n http://a/1 \r\n\n# comment\n#EXTINF:-1,one, Two \nhttp://a/2\nhttp://stray\n#EXTINF:-1\nhttp://a/3";

#[test]
fn reads_names_addresses_and_numbers() {
    let channels = parse(LIST);
    assert_eq!(channels.len(), 3);
    assert_eq!(channels[0].index, 1);
    assert_eq!(channels[0].display_name, "CCTV1");
    assert_eq!(channels[0].source_url, "http://a/1");
    assert_eq!(channels[0].tvg_id.as_deref(), Some("c1"));
    assert_eq!(channels[1].index, 2);
    assert_eq!(channels[1].display_name, "Two");
    assert_eq!(channels[1].source_url, "http://a/2");
    assert_eq!(channels[1].tvg_id, None);
    assert_eq!(channels[2].display_name, "unknown");
}

#[test]
fn an_information_line_replaces_the_one_before() {
    let channels = parse("#EXTINF:-1 tvg-id=\"x\",A\n#EXTINF:-1,B\nhttp://b");
    assert_eq!(channels.len(), 1);
    assert_eq!(channels[0].display_name, "B");
    assert_eq!(channels[0].tvg_id, None);
}

#[test]
fn nothing_comes_of_nothing() {
    assert!(parse("").is_empty());
    assert!(parse("#EXTM3U\nhttp://stray\n").is_empty());
    assert!(parse("#EXTINF:-1,A").is_empty());
}

#[test]
fn attributes_stand_in_quotes() {
    assert_eq!(extract_attr("a=\"1\" b=\"2\"", "b").as_deref(), Some("2"));
    assert_eq!(extract_attr("a=\"\"", "a").as_deref(), Some(""));
    assert_eq!(extract_attr("a=\"1", "a"), None);
    assert_eq!(extract_attr("a=1", "a"), None);
}

#[test]
fn logos_go_by_the_bare_name() {
    assert_eq!(logo_file(" CCTV 1-高清 "), "CCTV1");
    assert_eq!(logo_file("CCTV1-HD"), "CCTV1");
    assert_eq!(logo_file("CCTV1-FHD"), "CCTV1");
    assert_eq!(logo_file("CCTV1+高清"), "CCTV1");
    assert_eq!(logo_file("A-SD-HD"), "A-SD");
    assert_eq!(logo_file("A-4K-高清"), "A-4K");
    assert_eq!(logo_file("Plain"), "Plain");
    assert_eq!(
        logo_url("CCTV1-HD", "https://logos/tv//"),
        "https://logos/tv/CCTV1.png"
    );
}

fn channel(index: usize, name: &str, tvg_id: Option<&str>) -> Channel {
    Channel {
        index,
        display_name: name.to_string(),
        source_url: "http://source".to_string(),
        tvg_id: tvg_id.map(|id| id.to_string()),
    }
}

#[test]
fn writes_the_playlist() {
    let channels = vec![channel(1, "CCTV1-HD", Some("c1")), channel(20, "B", None)];
    assert_eq!(
        render_master(&channels, "http://box:8088/", "http://logos", None),
        "#EXTM3U\n\
         #EXTINF:-1 tvg-id=\"c1\" tvg-name=\"CCTV1-HD\" tvg-logo=\"http://logos/CCTV1.png\",CCTV1-HD\n\
         http://box:8088/play/tv-1\n\
         #EXTINF:-1 tvg-name=\"B\" tvg-logo=\"http://logos/B.png\",B\n\
         http://box:8088/play/tv-20\n"
    );
    assert_eq!(
        render_master(&[], "http://box", "http://logos", Some("http://epg/e.xml")),
        "#EXTM3U x-tvg-url=\"http://epg/e.xml\"\n"
    );
}

#[test]
fn numbers_in_addresses() {
    assert_eq!(parse_slug("tv-1"), Some(1));
    assert_eq!(parse_slug("tv-+7"), Some(7));
    assert_eq!(parse_slug("tv-007"), Some(7));
    assert_eq!(parse_slug("tv-"), None);
    assert_eq!(parse_slug("tv-+"), None);
    assert_eq!(parse_slug("tv-1a"), None);
    assert_eq!(parse_slug("tv--1"), None);
    assert_eq!(parse_slug("1"), None);
    assert_eq!(parse_slug("tv-18446744073709551615"), Some(usize::MAX));
    assert_eq!(parse_slug("tv-18446744073709551616"), None);
}

#[test]
fn every_channel_is_found_by_its_address() {
    let channels = parse(LIST);
    for (i, c) in channels.iter().enumerate() {
        assert_eq!(find_channel(&channels, &format!("tv-{}", c.index)), Ok(i));
    }
    assert_eq!(
        find_channel(&channels, "tv-0"),
        Err(LookupError::NoSuchChannel)
    );
    assert_eq!(find_channel(&channels, "x"), Err(LookupError::BadChannel));
    assert_eq!(LookupError::BadChannel.message(), "bad channel");
    assert_eq!(LookupError::NoSuchChannel.message(), "no such channel");
}

#[test]
fn a_written_playlist_reads_back() {
    let channels = parse(LIST);
    let written = render_master(
        &channels,
        "http://box:8088//",
        "http://logos?x=1&y=",
        Some("http://epg/?a=\"b\""),
    );
    let back = parse(&written);
    assert_eq!(back.len(), channels.len());
    for (was, is) in channels.iter().zip(&back) {
        assert_eq!(is.index, was.index);
        assert_eq!(is.display_name, was.display_name);
        assert_eq!(is.tvg_id, was.tvg_id);
        assert_eq!(
            is.source_url,
            format!("http://box:8088/play/tv-{}", was.index)
        );
    }
    let spaced = vec![channel(1, " tvg-name ", None)];
    let back = parse(&render_master(&spaced, "", "", None));
    assert_eq!(back[0].display_name, " tvg-name ");
    assert_eq!(back[0].source_url, "/play/tv-1");
}
