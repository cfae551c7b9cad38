use jfp::prompt::Prompt;
use jfp::search::{filter_prompts, render_prompt_details};
use jfp::version::{compare_versions, normalize_version_tag, parse_version};

fn sample_prompts() -> Vec<Prompt> {
    let mut prompt_a = Prompt::new("idea-wizard", "Idea Wizard", "Generate ideas");
    prompt_a.description = Some("Brainstorming helper".to_string());
    prompt_a.category = Some("ideation".to_string());
    prompt_a.tags = vec!["brainstorm".to_string()];

    let mut prompt_b = Prompt::new("debug-helper", "Debug Helper", "Debug issues");
    prompt_b.description = Some("Troubleshoot errors".to_string());
    prompt_b.category = Some("debugging".to_string());
    prompt_b.tags = vec!["bugfix".to_string(), "errors".to_string()];

    vec![prompt_a, prompt_b]
}

#[test]
fn filter_prompts_returns_all_for_blank_query() {
    let prompts = sample_prompts();
    let matches = filter_prompts(&prompts, "");
    assert_eq!(matches.len(), 2);
}

#[test]
fn filter_prompts_matches_tags_case_insensitively() {
    let prompts = sample_prompts();
    let matches = filter_prompts(&prompts, "BUGFIX");
    assert_eq!(matches.len(), 1);
    assert_eq!(matches[0].id, "debug-helper");
}

#[test]
fn filter_prompts_searches_every_text_field() {
    let prompts = sample_prompts();
    assert_eq!(filter_prompts(&prompts, "Troubleshoot").len(), 1);
    assert_eq!(filter_prompts(&prompts, "ideation").len(), 1);
    assert_eq!(filter_prompts(&prompts, "  wizard  ").len(), 1);
    assert_eq!(filter_prompts(&prompts, "nothing-like-this").len(), 0);
}

#[test]
fn render_prompt_details_includes_metadata_and_content() {
    let prompts = sample_prompts();
    let rendered = render_prompt_details(&prompts[0]);
    assert!(rendered.contains("Idea Wizard (idea-wizard)"));
    assert!(rendered.contains("Category: ideation"));
    assert!(rendered.contains("Tags: brainstorm"));
    assert!(rendered.contains("Generate ideas"));
}

#[test]
fn render_prompt_details_fills_defaults() {
    let bare = Prompt::new("bare", "Bare", "body");
    let rendered = render_prompt_details(&bare);
    assert!(rendered.contains("No description provided."));
    assert!(rendered.contains("Category: uncategorized"));
    assert!(rendered.contains("Tags: none"));
    assert!(rendered.contains(&"-".repeat(72)));
}

#[test]
fn normalize_version_tag_strips_v_prefix() {
    assert_eq!(normalize_version_tag("v1.2.3"), "1.2.3");
    assert_eq!(normalize_version_tag("1.2.3"), "1.2.3");
}

#[test]
fn parse_version_handles_prerelease_suffixes() {
    assert_eq!(parse_version("v2.10.3"), (2, 10, 3, false));
    assert_eq!(parse_version("1.0.0-beta.1"), (1, 0, 0, true));
}

#[test]
fn parse_version_treats_malformed_pieces_as_zero() {
    assert_eq!(parse_version("99999999999999999999999.1.2"), (0, 1, 2, false));
    assert_eq!(parse_version("1..2"), (1, 0, 2, false));
    assert_eq!(parse_version(""), (0, 0, 0, false));
}

#[test]
fn compare_versions_matches_expected_ordering() {
    assert_eq!(compare_versions("1.0.0", "1.0.1"), -1);
    assert_eq!(compare_versions("1.2.0", "1.1.9"), 1);
    assert_eq!(compare_versions("1.0.0", "1.0.0"), 0);
    assert_eq!(compare_versions("1.0.0-beta", "1.0.0"), -1);
    assert_eq!(compare_versions("1.0.0", "1.0.0-beta"), 1);
}
