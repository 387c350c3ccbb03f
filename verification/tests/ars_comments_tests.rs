use daily_feed::ars_comments::{parse_comments_from_html, sort_comments_by_score, top_comments,
    Comment};

#[test]
fn test_comment_struct_creation() {
    let comment = Comment {
        content: "Test content".to_string(),
        author: "Test Author".to_string(),
        upvotes: 12,
        downvotes: 2,
        timestamp: Some("2025-01-01T12:00:00Z".to_string()),
    };

    assert_eq!(comment.content, "Test content");
    assert_eq!(comment.author, "Test Author");
    assert_eq!(comment.upvotes, 12);
    assert_eq!(comment.downvotes, 2);
    assert_eq!(comment.timestamp, Some("2025-01-01T12:00:00Z".to_string()));
}

#[test]
fn test_comment_ordering_by_score() {
    let comments = vec![
        Comment {
            content: "Low score comment".to_string(),
            author: "User1".to_string(),
            upvotes: 3,
            downvotes: 2,
            timestamp: None,
        },
        Comment {
            content: "High score comment".to_string(),
            author: "User2".to_string(),
            upvotes: 15,
            downvotes: 5,
            timestamp: None,
        },
        Comment {
            content: "Medium score comment".to_string(),
            author: "User3".to_string(),
            upvotes: 8,
            downvotes: 3,
            timestamp: None,
        },
    ];

    let sorted = sort_comments_by_score(comments);
    assert_eq!(sorted.len(), 3);
    assert_eq!(sorted[0].content, "High score comment");
    assert_eq!(sorted[1].content, "Medium score comment");
    assert_eq!(sorted[2].content, "Low score comment");
}

#[test]
fn test_limit_functionality() {
    let comments = vec![
        Comment {
            content: "1".to_string(),
            author: "U1".to_string(),
            upvotes: 1,
            downvotes: 0,
            timestamp: None,
        },
        Comment {
            content: "2".to_string(),
            author: "U2".to_string(),
            upvotes: 2,
            downvotes: 0,
            timestamp: None,
        },
        Comment {
            content: "3".to_string(),
            author: "U3".to_string(),
            upvotes: 3,
            downvotes: 0,
            timestamp: None,
        },
        Comment {
            content: "4".to_string(),
            author: "U4".to_string(),
            upvotes: 4,
            downvotes: 0,
            timestamp: None,
        },
        Comment {
            content: "5".to_string(),
            author: "U5".to_string(),
            upvotes: 5,
            downvotes: 0,
            timestamp: None,
        },
        Comment {
            content: "6".to_string(),
            author: "U6".to_string(),
            upvotes: 6,
            downvotes: 0,
            timestamp: None,
        },
    ];

    let best = top_comments(comments, 3);
    assert_eq!(best.len(), 3);
    assert_eq!(best[0].content, "6");
    assert_eq!(best[1].content, "5");
    assert_eq!(best[2].content, "4");
}

#[test]
fn test_parse_comments_from_html() {
    let html = r#"
    <div class="message">
        <div class="username">testuser1</div>
        <div class="message-content">
            <div class="bbWrapper">This is a test comment</div>
        </div>
        <div class="contentVote-score--positive">8</div>
        <div class="contentVote-score--negative">3</div>
        <time datetime="2025-01-01T12:00:00Z"></time>
    </div>
    <div class="message">
        <div class="username">testuser2</div>
        <div class="message-content">
            <div class="bbWrapper">Another test comment</div>
        </div>
        <div class="contentVote-score--positive">5</div>
        <div class="contentVote-score--negative">2</div>
        <time datetime="2025-01-01T13:00:00Z"></time>
    </div>
    "#;

    let comments = parse_comments_from_html(html);

    assert_eq!(comments.len(), 2);
    assert_eq!(comments[0].author, "testuser1");
    assert_eq!(comments[0].content, "This is a test comment");
    assert_eq!(comments[0].upvotes, 8);
    assert_eq!(comments[0].downvotes, 3);
    assert_eq!(comments[0].timestamp, Some("2025-01-01T12:00:00Z".to_string()));
    assert_eq!(comments[1].author, "testuser2");
    assert_eq!(comments[1].content, "Another test comment");
    assert_eq!(comments[1].upvotes, 5);
    assert_eq!(comments[1].downvotes, 2);
    assert_eq!(comments[1].timestamp, Some("2025-01-01T13:00:00Z".to_string()));
}

#[test]
fn test_click_to_expand_filtering() {
    let html = r#"
    <div class="message">
        <div class="username">testuser</div>
        <div class="message-content">
            <div class="bbWrapper">This is before the quote.

            Click to expand...

            This is after the quote text.</div>
        </div>
        <div class="contentVote-score--positive">5</div>
        <div class="contentVote-score--negative">1</div>
        <time datetime="2025-01-01T12:00:00Z"></time>
    </div>
    "#;

    let comments = parse_comments_from_html(html);

    assert_eq!(comments.len(), 1);
    assert!(!comments[0].content.contains("Click to expand"));
    assert!(comments[0].content.starts_with("This is before the quote."));
    assert!(comments[0].content.ends_with("This is after the quote text."));
    assert_eq!(comments[0].upvotes, 5);
    assert_eq!(comments[0].downvotes, 1);
}

#[test]
fn test_parse_comments_with_real_world_html_structure() {
    let html = r#"
    <div class="message">
        <div class="username">realuser</div>
        <div class="message-content">
            <div class="bbWrapper">This is a real world comment structure</div>
        </div>
        <div class="contentVote-scores">0
            (0
            /
            0)</div>
        <div class="contentVote-score contentVote-score--total js-voteCount js-voteCount--total">0</div>
        <div class="contentVote-score contentVote-score--positive js-voteCount js-voteCount--positive">0</div>
        <div class="contentVote-score contentVote-score--negative js-voteCount js-voteCount--negative">0</div>
        <time datetime="2025-01-01T12:00:00Z"></time>
    </div>
    <div class="message">
        <div class="username">anotheruser</div>
        <div class="message-content">
            <div class="bbWrapper">Comment with actual votes</div>
        </div>
        <div class="contentVote-scores">15
            (20
            /
            5)</div>
        <div class="contentVote-score contentVote-score--total js-voteCount js-voteCount--total">15</div>
        <div class="contentVote-score contentVote-score--positive js-voteCount js-voteCount--positive">20</div>
        <div class="contentVote-score contentVote-score--negative js-voteCount js-voteCount--negative">5</div>
        <time datetime="2025-01-01T13:00:00Z"></time>
    </div>
    "#;

    let comments = parse_comments_from_html(html);

    assert_eq!(comments.len(), 2);
    assert_eq!(comments[0].author, "realuser");
    assert_eq!(comments[0].content, "This is a real world comment structure");
    assert_eq!(comments[0].upvotes, 0);
    assert_eq!(comments[0].downvotes, 0);
    assert_eq!(comments[1].author, "anotheruser");
    assert_eq!(comments[1].content, "Comment with actual votes");
    assert_eq!(comments[1].upvotes, 20);
    assert_eq!(comments[1].downvotes, 5);
}

// A message without readable content is skipped; negative-score fields
// carry their sign.
#[test]
fn test_parse_skips_empty_and_reads_negatives() {
    let html = r#"
    <div class="message">
        <div class="username">ghost</div>
        <div class="message-content"><div class="bbWrapper">   </div></div>
    </div>
    <div class="message">
        <div class="username">grump</div>
        <div class="message-content"><div class="bbWrapper">meh</div></div>
        <div class="contentVote-score--negative">-4</div>
    </div>
    "#;

    let comments = parse_comments_from_html(html);
    assert_eq!(comments.len(), 1);
    assert_eq!(comments[0].author, "grump");
    assert_eq!(comments[0].content, "meh");
    assert_eq!(comments[0].upvotes, 0);
    assert_eq!(comments[0].downvotes, 4);
    assert_eq!(comments[0].timestamp, None);
}

// A missing author falls back to the anonymous name.
#[test]
fn test_parse_anonymous_author() {
    let html = r#"<div class="message">
        <div class="message-content"><div class="bbWrapper">hello</div></div>
    </div>"#;
    let comments = parse_comments_from_html(html);
    assert_eq!(comments.len(), 1);
    assert_eq!(comments[0].author, "Anonymous");
}
