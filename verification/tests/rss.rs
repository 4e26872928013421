use garfeo::corpus::{parse_posts, PostFolder};
use garfeo::rss::{generate_rss, Feed};

fn folder(index: usize) -> PostFolder {
    PostFolder {
        name: format!("{:04}", index),
        title: Some(format!("Garfildo {}", index)),
        date: Some(format!("2023-04-{:02}", index + 1)),
        esperanto_png: Some(300 + index as u64),
        english_png: true,
        ..PostFolder::default()
    }
}

fn feed() -> Feed {
    Feed {
        title: "Garfildo Esperanta".to_string(),
        url: "https://example.org/garfeo".to_string(),
        assets_url: "/assets/".to_string(),
        description: "Legu bildstriojn".to_string(),
    }
}

fn item(index: usize) -> String {
    format!(
        "<item>\n<title>Garfildo {0} [{1}]</title>\n<link>https://example.org/garfeo/{1}</link>\n<guid>https://example.org/garfeo/{1}</guid>\n<description>Legu bildstriojn</description>\n<pubDate>2023-04-{2:02}</pubDate>\n<enclosure url=\"/assets/posts/{1}/esperanto.png\" length=\"{3}\" type=\"image/png\"/>\n</item>",
        index,
        format!("{:04}", index),
        index + 1,
        300 + index
    )
}

fn head(last: &str) -> String {
    format!(
        "<?xml version=\"1.0\" encoding=\"UTF-8\"?>\n<rss version=\"2.0\">\n<channel>\n<title>Garfildo Esperanta</title>\n<link>https://example.org/garfeo</link>\n<description>Legu bildstriojn</description>\n<language>eo</language>\n<image>\n<url>/assets/icon.png</url>\n<title>Garfildo Esperanta</title>\n<link>https://example.org/garfeo/{}</link>\n</image>\n",
        last
    )
}

#[test]
fn the_feed_lists_the_posts_in_list_order() {
    let list = parse_posts(&vec![folder(0), folder(1), folder(2)], &vec![]).unwrap();
    assert_eq!(
        generate_rss(&list, &feed()),
        format!("{}{}\n{}\n{}\n</channel>\n</rss>\n", head("0002"), item(0), item(1), item(2))
    );
}

#[test]
fn a_feed_of_one_post_has_one_entry() {
    let list = parse_posts(&vec![folder(0)], &vec![]).unwrap();
    assert_eq!(
        generate_rss(&list, &feed()),
        format!("{}{}\n</channel>\n</rss>\n", head("0000"), item(0))
    );
}

#[test]
fn markup_in_a_text_is_written_as_entities() {
    let mut only = folder(0);
    only.title = Some("Garfildo & <Jono> diras \"ne\" 'jes'".to_string());
    let list = parse_posts(&vec![only], &vec![]).unwrap();
    let mut site = feed();
    site.description = "a<b".to_string();
    site.assets_url = "/as\"sets/".to_string();
    let text = generate_rss(&list, &site);
    assert!(text.contains(
        "<title>Garfildo &amp; &lt;Jono&gt; diras &quot;ne&quot; &apos;jes&apos; [0000]</title>"
    ));
    assert!(text.contains("<description>a&lt;b</description>\n<language>"));
    assert!(text.contains("<enclosure url=\"/as&quot;sets/posts/0000/esperanto.png\" length=\"300\""));
    assert_eq!(text.matches("<item>").count(), 1);
}
