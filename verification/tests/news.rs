use chrono::DateTime;
use familiar::news::{
    self, angles, brief, escape, exa_request, forums, from_exa, guidance, hn_front_page_url, hn_url,
    host_of, merge, plain, squash, trending_angles, HnHit, Item, Lane, Story, Window, MAX_ITEMS,
    PER_LANE,
};
use familiar::news::ranking::{identity, merge_into};
use familiar::time::Stamp;
use familiar::web::{Found, SearchRequest, SearchResponse};
use serde_json::Value;

fn at(text: &str) -> Stamp {
    let when = DateTime::parse_from_rfc3339(text).expect("a date");
    Stamp { seconds: when.timestamp(), nanos: when.timestamp_subsec_nanos() }
}

/// The score of a story: its engagement, its age in the window, and how many
/// lanes found it.
fn score_of(story: &Story, window: &Window) -> f64 {
    let engagement = (story.engagement() as f64).ln_1p();
    let recency = match story.item.published {
        Some(at) => {
            let span = (window.to.seconds - window.from.seconds).max(1) as f64;
            let age = (window.to.seconds - at.seconds).max(0) as f64;
            1.0 - 0.5 * (age / span).min(1.0)
        }
        None => 0.75,
    };
    let convergence = 1.0 + 0.5 * (story.lanes.len() - 1) as f64;
    (1.0 + engagement) * recency * convergence
}

fn rank(items: Vec<Item>, window: &Window) -> Vec<Story> {
    let stories = merge(items);
    let scores: Vec<u64> = stories.iter().map(|s| score_of(s, window).to_bits()).collect();
    news::rank(&stories, &scores)
}

/// The hits of a response body, which is empty where it is not one.
fn from_hn(body: &str) -> Vec<Item> {
    let Ok(value) = serde_json::from_str::<Value>(body) else {
        return Vec::new();
    };
    let text = |hit: &Value, name: &str| hit.get(name).and_then(Value::as_str).map(str::to_string);
    let count = |hit: &Value, name: &str| {
        hit.get(name).and_then(Value::as_u64).and_then(|n| u32::try_from(n).ok())
    };
    let hits: Vec<HnHit> = value
        .get("hits")
        .and_then(Value::as_array)
        .map(|hits| {
            hits.iter()
                .map(|hit| HnHit {
                    title: text(hit, "title"),
                    url: text(hit, "url"),
                    id: text(hit, "objectID"),
                    points: count(hit, "points"),
                    num_comments: count(hit, "num_comments"),
                    created_at: text(hit, "created_at"),
                    story_text: text(hit, "story_text"),
                })
                .collect()
        })
        .unwrap_or_default();
    news::from_hn(&hits)
}

fn now() -> Stamp {
    at("2026-08-01T12:00:00Z")
}

fn item(title: &str, url: &str, lane: Lane) -> Item {
    Item {
        title: title.into(),
        url: url.into(),
        published: Some(at("2026-07-30T00:00:00Z")),
        lane,
        points: None,
        comments: None,
        discussion: None,
        text: None,
    }
}

// -- the window ----------------------------------------------------------

#[test]
fn a_window_is_measured_back_from_the_clock_it_was_given() {
    let window = Window::of(30, now());
    assert_eq!(window.from, at("2026-07-02T12:00:00Z"));
    assert_eq!(window.to, now());
    assert_eq!(window.from_iso(), "2026-07-02T12:00:00.000Z");
    assert_eq!(window.from_unix(), at("2026-07-02T12:00:00Z").seconds);
}

#[test]
fn an_impossible_window_is_clamped_rather_than_refused() {
    // A small model writes `days: 0` and `days: 100000`. Neither is worth
    // failing a whole call over.
    assert_eq!(Window::of(0, now()).days, 1);
    assert_eq!(Window::of(-5, now()).days, 1);
    assert_eq!(Window::of(9_999, now()).days, Window::MAX_DAYS);
}

#[test]
fn the_window_is_described_so_the_model_cannot_imply_it_is_all_from_today() {
    let described = Window::of(30, now()).described();
    assert!(described.contains("30 days"), "{described}");
    assert!(described.contains("2 July 2026"), "{described}");
    assert!(described.contains("1 August 2026"), "{described}");
}

// -- requests ------------------------------------------------------------

#[test]
fn every_exa_lane_carries_the_date_filter() {
    // The one thing this tool exists to do. A lane that lost the window
    // would return the best pages of all time and look like it worked.
    let window = Window::of(14, now());
    for angle in angles("Gemma 4") {
        let request = exa_request(&angle, &window);
        assert_eq!(
            request.start_published_date.as_deref(),
            Some("2026-07-18T12:00:00.000Z")
        );
        assert_eq!(request.end_published_date, Some(window.to_iso()));
    }
}

#[test]
fn the_press_lane_asks_for_news_and_the_community_lane_asks_for_forums() {
    let window = Window::of(30, now());
    let built: Vec<SearchRequest> = angles("Rust")
        .iter()
        .map(|angle| exa_request(angle, &window))
        .collect();

    let press: Vec<&SearchRequest> = built
        .iter()
        .filter(|r| r.category.as_deref() == Some("news"))
        .collect();
    assert!(!press.is_empty(), "no lane asked Exa for news");
    assert!(
        press.iter().all(|r| r.include_domains.is_none()),
        "the press lane was restricted to the forum list"
    );

    let community: Vec<&SearchRequest> = built
        .iter()
        .filter(|r| r.include_domains.is_some())
        .collect();
    assert_eq!(community.len(), 1);
    let domains = community[0].include_domains.as_ref().expect("domains");
    assert!(domains.iter().any(|d| d == "reddit.com"), "{domains:?}");
}

#[test]
fn the_angles_describe_pages_rather_than_repeating_the_topic() {
    // Exa is semantic: three spellings of "Gemma 4" would return the same
    // ten links three times, and the whole point of the fan-out is that the
    // lanes disagree.
    let angles = angles("Gemma 4");
    assert!(angles.len() >= 3);
    for angle in &angles {
        assert!(angle.query.contains("Gemma 4"), "{}", angle.query);
        assert!(
            angle.query.split_whitespace().count() > 6,
            "a one-line query is a keyword search: {}",
            angle.query
        );
    }
    let queries: Vec<&str> = angles.iter().map(|a| a.query.as_str()).collect();
    let mut unique = queries.clone();
    unique.sort_unstable();
    unique.dedup();
    assert_eq!(unique.len(), queries.len(), "two lanes ask the same thing");
}

#[test]
fn the_hacker_news_url_escapes_the_topic_and_carries_the_window() {
    let url = hn_url("rust & c++", &Window::of(7, now()));
    assert!(url.contains("query=rust%20%26%20c%2B%2B"), "{url}");
    assert!(url.contains("tags=story"), "{url}");
    // `>` has to arrive encoded — a bare one makes the endpoint answer 400.
    assert!(url.contains("numericFilters=created_at_i%3E"), "{url}");
    assert!(!url.contains("created_at_i>"), "{url}");
}

// -- reading sources -----------------------------------------------------

#[test]
fn hacker_news_hits_become_items_with_their_numbers() {
    let items = from_hn(
        r#"{"hits":[{"title":"Gemma 4 Models","url":"https://hf.co/blog/gemma4",
            "objectID":"123","points":340,"num_comments":118,
            "created_at":"2026-07-30T00:00:00.000Z"}]}"#,
    );
    assert_eq!(items.len(), 1);
    assert_eq!(items[0].points, Some(340));
    assert_eq!(items[0].comments, Some(118));
    // The article is the story; the thread is where it is discussed.
    assert_eq!(items[0].url, "https://hf.co/blog/gemma4");
    assert_eq!(
        items[0].discussion.as_deref(),
        Some("https://news.ycombinator.com/item?id=123")
    );
}

#[test]
fn a_hacker_news_text_post_is_its_own_story() {
    // An Ask HN links nowhere, so the thread has to become the URL or the
    // item is unreachable.
    let items = from_hn(
        r#"{"hits":[{"title":"Ask HN: what are you running locally?","objectID":"9",
            "points":80,"num_comments":210,"created_at":"2026-07-30T00:00:00.000Z"}]}"#,
    );
    assert_eq!(items[0].url, "https://news.ycombinator.com/item?id=9");
    assert_eq!(items[0].discussion, None);
}

#[test]
fn a_hacker_news_body_arrives_as_html_and_is_read_as_text() {
    // HN stores post bodies as HTML, so the model would be reading
    // `Henry &amp; Roman here` and paying for `<p>`.
    let items = from_hn(
        r#"{"hits":[{"title":"Show HN: a thing","objectID":"1","points":1,"num_comments":0,
            "created_at":"2026-07-30T00:00:00.000Z",
            "story_text":"Henry &amp; Roman here.<p>It&#x27;s 5&lt;6 &amp; &quot;fast&quot;."}]}"#,
    );
    assert_eq!(
        items[0].text.as_deref(),
        Some(r#"Henry & Roman here. It's 5<6 & "fast"."#)
    );
}

#[test]
fn a_bare_ampersand_is_left_alone_rather_than_eating_the_text_after_it() {
    assert_eq!(plain("Tom & Jerry & co"), "Tom & Jerry & co");
    // An unknown entity is not silently swallowed either.
    assert_eq!(plain("a &notreal; b"), "a &notreal; b");
}

#[test]
fn hacker_news_answering_with_nonsense_yields_nothing_rather_than_panicking() {
    assert!(from_hn("not json").is_empty());
    assert!(from_hn(r#"{"hits":[{"points":5}]}"#).is_empty());
}

#[test]
fn a_page_exa_dated_outside_the_window_is_dropped() {
    // Exa honours the filter for pages it has a date for and returns the
    // rest anyway, so the window has to be applied again on the way in.
    let response = SearchResponse {
        results: vec![
            Found {
                title: Some("Old".into()),
                url: "https://example.com/old".into(),
                text: None,
                published: Some("2019-01-01T00:00:00Z".into()),
                author: None,
            },
            Found {
                title: Some("Recent".into()),
                url: "https://example.com/new".into(),
                text: None,
                published: Some("2026-07-30T00:00:00Z".into()),
                author: None,
            },
            Found {
                title: Some("Undated".into()),
                url: "https://forum.example/thread".into(),
                text: None,
                published: None,
                author: None,
            },
        ],
    };
    let items = from_exa(&response, Lane::Press, &Window::of(30, now()));
    let titles: Vec<&str> = items.iter().map(|i| i.title.as_str()).collect();
    // Undated is kept: a lot of forum software publishes no date, and
    // dropping it would empty the community lane.
    assert_eq!(titles, ["Recent", "Undated"]);
}

// -- ranking -------------------------------------------------------------

#[test]
fn the_same_story_from_two_lanes_becomes_one_entry() {
    let window = Window::of(30, now());
    let stories = rank(
        vec![
            item("Gemma 4", "https://hf.co/blog/gemma4", Lane::Press),
            item(
                "Gemma 4 Models",
                "http://www.hf.co/blog/gemma4?ref=x",
                Lane::Community,
            ),
        ],
        &window,
    );
    assert_eq!(stories.len(), 1, "{stories:#?}");
    assert_eq!(stories[0].lanes.len(), 2);
}

#[test]
fn a_story_two_lanes_found_outranks_a_livelier_one_only_one_lane_found() {
    // The signal the whole ranking is built on: agreement across sources
    // beats raw engagement in a single place.
    let window = Window::of(30, now());
    let mut loud = item("Loud but isolated", "https://a.example/x", Lane::Engagement);
    loud.points = Some(120);
    loud.comments = Some(40);

    let mut agreed_hn = item("Everywhere", "https://b.example/y", Lane::Engagement);
    agreed_hn.points = Some(60);
    agreed_hn.comments = Some(20);

    let stories = rank(
        vec![
            loud,
            agreed_hn,
            item("Everywhere", "https://b.example/y", Lane::Press),
            item("Everywhere", "https://b.example/y", Lane::Community),
        ],
        &window,
    );
    assert_eq!(stories[0].item.title, "Everywhere", "{stories:#?}");
    assert_eq!(stories[0].lanes.len(), 3);
}

#[test]
fn engagement_is_log_scaled_so_one_viral_thread_cannot_bury_the_brief() {
    let window = Window::of(30, now());
    let score = |points: u32| {
        let mut hit = item("t", "https://a.example/x", Lane::Engagement);
        hit.points = Some(points);
        hit.comments = Some(0);
        f64::from_bits(rank(vec![hit], &window)[0].score)
    };
    // Ten times the points is nothing like ten times the score.
    assert!(
        score(1_000) < score(100) * 2.0,
        "{} {}",
        score(100),
        score(1_000)
    );
    assert!(score(1_000) > score(100));
}

#[test]
fn merging_keeps_the_numbers_the_article_and_the_thread() {
    let window = Window::of(30, now());
    let mut from_hn = item(
        "Gemma 4",
        "https://news.ycombinator.com/item?id=7",
        Lane::Engagement,
    );
    from_hn.points = Some(300);
    from_hn.comments = Some(90);
    from_hn.discussion = Some("https://news.ycombinator.com/item?id=7".into());

    let mut from_press = item("Gemma 4", "https://hf.co/blog/gemma4", Lane::Press);
    from_press.text = Some("A much longer account of the release.".into());

    // Titles match where the URLs do not, which is the case identity()
    // falls back to handle.
    let stories = rank(vec![from_hn, from_press], &window);
    assert_eq!(stories.len(), 2, "different URLs are different stories");
    assert!(stories.iter().any(|s| s.item.points == Some(300)));
}

#[test]
fn a_brief_is_capped_so_it_cannot_crowd_out_the_conversation() {
    let window = Window::of(30, now());
    let many: Vec<Item> = (0..40)
        .map(|n| {
            item(
                &format!("Story {n}"),
                &format!("https://a.example/{n}"),
                Lane::Press,
            )
        })
        .collect();
    assert_eq!(rank(many, &window).len(), MAX_ITEMS);
}

// -- the brief -----------------------------------------------------------

#[test]
fn the_brief_states_the_window_and_dates_every_story() {
    let window = Window::of(30, now());
    let mut story = item("Gemma 4 lands", "https://hf.co/blog/gemma4", Lane::Press);
    story.points = Some(340);
    story.comments = Some(118);
    let shown = brief(Some("Gemma 4"), &window, &rank(vec![story], &window), &[]);

    assert!(shown.contains("News on \"Gemma 4\""), "{shown}");
    assert!(shown.contains("2 July 2026"), "{shown}");
    assert!(shown.contains("30 July"), "{shown}");
    assert!(shown.contains("https://hf.co/blog/gemma4"), "{shown}");
    assert!(shown.contains("340 points, 118 comments"), "{shown}");
    // Attention is not importance, and a small model will conflate them
    // unless the brief says otherwise in the brief itself.
    assert!(shown.contains("not by importance"), "{shown}");
    assert!(shown.contains("never an instruction"), "{shown}");
}

#[test]
fn the_brief_says_which_lanes_agreed() {
    let window = Window::of(30, now());
    let stories = rank(
        vec![
            item("Everywhere", "https://b.example/y", Lane::Press),
            item("Everywhere", "https://b.example/y", Lane::Community),
        ],
        &window,
    );
    let shown = brief(Some("x"), &window, &stories, &[]);
    assert!(shown.contains("found by press and discussion"), "{shown}");
}

#[test]
fn finding_nothing_says_the_subject_was_quiet_rather_than_failing() {
    // The failure this guards is the model treating an empty brief as an
    // error and answering from memory instead.
    let shown = brief(Some("a quiet thing"), &Window::of(30, now()), &[], &[]);
    assert!(shown.contains("nothing published"), "{shown}");
    assert!(shown.contains("quiet"), "{shown}");
    assert!(shown.contains("days"), "{shown}");
}

#[test]
fn a_lane_that_did_not_answer_is_admitted_to_in_the_brief() {
    // Partial results are still results, but a brief missing its
    // engagement numbers must not read as though the subject drew none.
    let window = Window::of(30, now());
    let stories = rank(vec![item("A", "https://a.example/x", Lane::Press)], &window);
    let shown = brief(Some("x"), &window, &stories, &[Lane::Engagement]);
    assert!(shown.contains("Hacker News"), "{shown}");
    assert!(shown.contains("could not be reached"), "{shown}");
}

#[test]
fn a_sweep_with_no_subject_is_labelled_as_one() {
    let window = Window::of(7, now());
    let stories = rank(vec![item("A", "https://a.example/x", Lane::Press)], &window);
    let shown = brief(None, &window, &stories, &[]);
    assert!(shown.contains("What is being talked about"), "{shown}");
}

#[test]
fn the_guidance_draws_the_line_against_web_search() {
    // The mistake to prevent: a model reaching for `news` to look something
    // up, or writing this tool a semantic query it builds itself.
    let guidance = guidance();
    assert!(guidance.contains("web_search"));
    assert!(guidance.contains("plain name"));
    assert!(guidance.contains("no subject"));
}

#[test]
fn a_window_holds_its_ends_and_what_is_between_them() {
    let window = Window::of(30, now());
    assert!(window.holds(window.from));
    assert!(window.holds(window.to));
    assert!(window.holds(at("2026-07-20T00:00:00Z")));
    assert!(!window.holds(at("2026-08-01T12:00:01Z")));
    assert!(!window.holds(at("2026-07-02T11:59:59Z")));
    assert_eq!(window.to_iso(), "2026-08-01T12:00:00.000Z");
    assert_eq!(Window::DEFAULT_DAYS, 30);
}

#[test]
fn an_escaped_text_can_be_read_back() {
    let topic = "rust & c++ 100% é";
    let escaped = escape(topic);
    assert_eq!(escaped, "rust%20%26%20c%2B%2B%20100%25%20%C3%A9");
    let bytes = escaped.as_bytes();
    let mut back: Vec<u8> = Vec::new();
    let mut i = 0;
    while i < bytes.len() {
        if bytes[i] == b'%' {
            let pair = std::str::from_utf8(&bytes[i + 1..i + 3]).expect("two digits");
            back.push(u8::from_str_radix(pair, 16).expect("a byte"));
            i += 3;
        } else {
            back.push(bytes[i]);
            i += 1;
        }
    }
    assert_eq!(String::from_utf8(back).expect("text"), topic);
    assert_eq!(escape("Plain-words_1.0~"), "Plain-words_1.0~");
}

#[test]
fn a_request_asks_each_lane_for_what_it_is() {
    let window = Window::of(14, now());
    let angles = trending_angles();
    assert!(!angles.is_empty());
    let built = exa_request(&angles[0], &window);
    assert_eq!(built.query, angles[0].query);
    assert_eq!(built.num_results as usize, PER_LANE);
    assert!(forums().contains(&"reddit.com".to_string()));
    assert!(hn_front_page_url().starts_with("https://hn.algolia.com/api/v1/search"));
    assert_eq!(Lane::Press.named(), "press");
    assert_eq!(Lane::Community.named(), "discussion");
    assert_eq!(Lane::Engagement.named(), "Hacker News");
}

#[test]
fn two_sightings_become_one_story() {
    let first = item("Gemma 4", "https://news.ycombinator.com/item?id=7", Lane::Engagement);
    let mut second = item("Gemma 4", "https://hf.co/blog/gemma4", Lane::Press);
    second.points = Some(3);
    second.comments = Some(4);
    second.text = Some("An account.".into());
    let story = Story { item: first, lanes: vec![Lane::Engagement], score: 0 };
    let merged = merge_into(story, second);
    assert_eq!(merged.lanes, vec![Lane::Engagement, Lane::Press]);
    assert_eq!(merged.item.url, "https://hf.co/blog/gemma4");
    assert_eq!(merged.item.text.as_deref(), Some("An account."));
    assert_eq!(merged.engagement(), 11);
    assert_eq!(
        identity(&item("A", "http://www.hf.co/blog/?ref=1", Lane::Press)),
        identity(&item("B", "https://hf.co/blog", Lane::Press))
    );
}

#[test]
fn the_highest_score_comes_first_and_ties_go_by_title() {
    let stories = merge(vec![
        item("B", "https://a.example/1", Lane::Press),
        item("A", "https://a.example/2", Lane::Press),
        item("C", "https://a.example/3", Lane::Press),
    ]);
    let ranked = news::rank(&stories, &[5, 5, 9]);
    let titles: Vec<&str> = ranked.iter().map(|s| s.item.title.as_str()).collect();
    assert_eq!(titles, ["C", "A", "B"]);
    assert_eq!(ranked[0].score, 9);
}

#[test]
fn text_is_squashed_and_hosts_are_named() {
    assert_eq!(squash(" a \n  b\tc "), "a b c");
    assert_eq!(host_of("https://www.example.com/x?y"), "example.com");
    assert_eq!(plain("It&#39;s &amp; <b>bold</b>"), "It's &  bold ");
}

#[test]
fn only_tracking_parameters_are_noise() {
    let one = item("Ask HN: a", "https://news.ycombinator.com/item?id=7", Lane::Engagement);
    let other = item("Ask HN: b", "https://news.ycombinator.com/item?id=9", Lane::Engagement);
    assert_eq!(merge(vec![one, other]).len(), 2);
    let key = |url: &str| identity(&item("A", url, Lane::Press));
    assert_eq!(key("https://hf.co/blog/?utm_source=x&id=1&fbclid=2#top"), "hf.co/blog?id=1");
    assert_eq!(key("http://www.hf.co/Blog/?ref=x"), key("https://hf.co/blog"));
    assert_ne!(key("https://example.com/watch?v=aBc"), key("https://example.com/watch?v=AbC"));
}

#[test]
fn the_calendar_begins_where_it_can_be_written() {
    let first = Stamp { seconds: -8_334_601_228_800, nanos: 0 };
    let window = Window { days: 1, from: first, to: first };
    assert_eq!(window.from_iso(), "-262143-01-01T00:00:00.000Z");
    assert!(window.described().contains("1 January"));
}
