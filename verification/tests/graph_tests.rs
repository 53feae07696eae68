use scrapper::graph::Graph;
use scrapper::urldata::UrlData;

#[test]
fn add_independent_urls() {
    let mut graph = Graph::new();

    graph.add(
        UrlData {
            point_to: Vec::new(),
            url: "first_url".to_string(),
        },
        "",
    );
    assert_eq!(graph.urls.len(), 1);

    graph.add(
        UrlData {
            point_to: Vec::new(),
            url: "second_url".to_string(),
        },
        "",
    );
    assert_eq!(graph.urls.len(), 2);

    graph.add(
        UrlData {
            point_to: Vec::new(),
            url: "third_url".to_string(),
        },
        "",
    );
    assert_eq!(graph.urls.len(), 3);
}

#[test]
fn add_samename_urls() {
    let mut graph = Graph::new();

    graph.add(
        UrlData {
            point_to: Vec::new(),
            url: "first_url".to_string(),
        },
        "",
    );
    assert_eq!(graph.urls.len(), 1);

    graph.add(
        UrlData {
            point_to: Vec::new(),
            url: "first_url".to_string(),
        },
        "",
    );
    assert_eq!(graph.urls.len(), 1);

    graph.add(
        UrlData {
            point_to: Vec::new(),
            url: "second_url".to_string(),
        },
        "",
    );
    assert_eq!(graph.urls.len(), 2);

    graph.add(
        UrlData {
            point_to: Vec::new(),
            url: "third_url".to_string(),
        },
        "",
    );
    assert_eq!(graph.urls.len(), 3);

    graph.add(
        UrlData {
            point_to: Vec::new(),
            url: "second_url".to_string(),
        },
        "",
    );
    assert_eq!(graph.urls.len(), 3);

    graph.add(
        UrlData {
            point_to: Vec::new(),
            url: "first_url".to_string(),
        },
        "",
    );
    assert_eq!(graph.urls.len(), 3);
}

#[test]
fn add_children_urls() {
    let mut graph = Graph::new();

    graph.add(
        UrlData {
            point_to: Vec::new(),
            url: "first_url".to_string(),
        },
        "",
    );
    graph.add(
        UrlData {
            point_to: Vec::new(),
            url: "second_url".to_string(),
        },
        "first_url",
    );

    // Making sure that the first_url (position 0) points to the second_url (position 1)
    assert!(graph.urls[0].point_to.contains(&1));
    graph.add(
        UrlData {
            point_to: Vec::new(),
            url: "third_url".to_string(),
        },
        "first_url",
    );
    // Making sure that the first_url (position 0) points to the third_url (position 2)
    assert!(graph.urls[0].point_to.contains(&2));
    graph.add(
        UrlData {
            point_to: Vec::new(),
            url: "first_url".to_string(),
        },
        "third_url",
    );
    // Making sure that the third_url (position 2) points to the first_url (position 0)
    assert!(graph.urls[2].point_to.contains(&0));
}
