use simplethinktank::chunking::agentic::{agentic_fallback, agentic_without_model, enforce_max_size, group_by_cuts, merge_tiny, AgenticStart};
use simplethinktank::chunking::chunk::{ChunkMetadata, ChunkResult};
use simplethinktank::chunking::points::parse_split_points;
use simplethinktank::chunking::semantic::semantic_split;
use simplethinktank::chunking::sentences::split_sentences;
use simplethinktank::chunking::strategies::{
    default_window_size, list_strategies, AgenticParams, TextOrList, AgenticSplitStrategy, ParamDefault,
    SemanticStrategy, SplitStrategyId,
};
use simplethinktank::error::AppError;

const LONG_TEXT: &str = "人工智能是计算机科学的一个分支。它企图了解智能的实质。并生产出一种新的能以人类智能相似的方式做出反应的智能机器。研究领域包括机器人、语言识别、图像识别和自然语言处理等。然而，人工智能也面临着许多挑战。数据隐私和算法偏见是当前的热点问题。";

#[test]
fn test_semantic_strategy_registered() {
    let strategies = list_strategies();
    let ids: Vec<&str> = strategies.iter().map(|s| s.id.as_str()).collect();
    assert!(ids.contains(&"semantic"), "semantic strategy not found in list: {:?}", ids);
}

#[test]
fn test_semantic_strategy_info() {
    let s = SemanticStrategy;
    let info = s.info();
    assert_eq!(info.id, "semantic");
    assert_eq!(info.name, "语义切分");
    assert_eq!(info.config_schema.len(), 3);
    assert_eq!(info.config_schema[0].key, "chunk_size");
    assert_eq!(info.config_schema[1].key, "overlap");
    assert_eq!(info.config_schema[2].key, "sentence_group_size");
}

#[test]
fn test_semantic_split_basic() {
    let text = "这是第一句话。这是第二句话。这是第三句话。然而，这是话题转换。这是新话题的第一句。这是新话题的第二句。";
    let chunks = semantic_split(text, 100, 0, 3);
    assert!(!chunks.is_empty(), "semantic_split should produce chunks");
}

#[test]
fn test_semantic_split_paragraph_break() {
    let text = "第一段内容。包含几个句子。\n\n第二段内容。完全不同的话题。";
    let chunks = semantic_split(text, 512, 0, 3);
    assert!(!chunks.is_empty(), "should split on paragraph breaks");
}

#[test]
fn test_semantic_split_topic_shift() {
    let text = "我们讨论了系统的架构设计。模块划分清晰。然而，性能问题仍然存在。需要优化数据库查询。";
    let chunks = semantic_split(text, 512, 50, 3);
    assert!(!chunks.is_empty(), "should split on topic shift");
}

#[test]
fn test_chunk_size_hard_limit() {
    let chunk_size = 64;
    let overlap = 20;
    let chunks = semantic_split(LONG_TEXT, chunk_size, overlap, 3);
    assert!(chunks.len() > 1, "should produce multiple chunks");
    for (i, chunk) in chunks.iter().enumerate() {
        let len = chunk.text.chars().count();
        assert!(
            len <= chunk_size + overlap,
            "chunk {} has {} chars, exceeds chunk_size + overlap = {}",
            i,
            len,
            chunk_size + overlap
        );
    }
}

#[test]
fn test_chunk_size_includes_overlap() {
    let text = "这是第一句话内容。这是第二句话内容。这是第三句话内容。这是第四句话内容。这是第五句话内容。这是第六句话内容。这是第七句话内容。这是第八句话内容。";
    let chunk_size = 64;
    let overlap = 20;
    let chunks = semantic_split(text, chunk_size, overlap, 3);
    assert!(chunks.len() > 1, "should produce multiple chunks");
    for (i, chunk) in chunks.iter().enumerate() {
        let len = chunk.text.chars().count();
        assert!(
            len <= chunk_size + overlap,
            "chunk {} ({} chars) exceeds chunk_size + overlap = {}",
            i,
            len,
            chunk_size + overlap
        );
    }
}

#[test]
fn test_no_sentence_cut_in_middle() {
    let chunks = semantic_split(LONG_TEXT, 64, 20, 3);
    let sentence_endings = ['。', '！', '？', '.', '!', '?'];
    for (i, chunk) in chunks.iter().enumerate() {
        let trimmed = chunk.text.trim();
        let last_char = trimmed.chars().last();
        if i < chunks.len() - 1 {
            assert!(
                last_char.map(|c| sentence_endings.contains(&c)).unwrap_or(false),
                "chunk {} ends mid-sentence: ...{}",
                i,
                trimmed.chars().rev().take(20).collect::<String>()
            );
        }
    }
}

#[test]
fn test_overlap_is_complete_sentences() {
    let text = "这是第一句话。这是第二句话。这是第三句话。这是第四句话。这是第五句话。这是第六句话。这是第七句话。这是第八句话。这是第九句话。这是第十句话。";
    let chunks = semantic_split(text, 40, 20, 3);
    assert!(chunks.len() > 1, "should produce multiple chunks");
    let sentence_endings = ['。', '！', '？', '.', '!', '?'];
    for (i, chunk) in chunks.iter().enumerate() {
        let first_end = chunk.text.chars().position(|c| sentence_endings.contains(&c));
        if let Some(end) = first_end {
            let first_sent: String = chunk.text.chars().take(end + 1).collect();
            assert!(
                first_sent.ends_with(|c: char| sentence_endings.contains(&c)),
                "chunk {} starts with incomplete sentence: {}",
                i,
                first_sent
            );
        }
    }
}

#[test]
fn test_oversized_single_sentence_kept_intact() {
    let long_sentence = "这是一个非常长的句子它超过了六十四个字符的限制因为中文文本经常会包含这样比较长的叙述性句子对吧就是这样的。";
    let text = format!("短句一。{}短句二。", long_sentence);
    let chunks = semantic_split(&text, 64, 10, 3);
    for chunk in &chunks {
        assert!(!chunk.text.is_empty(), "chunk should not be empty");
    }
    let all_text: String = chunks.iter().map(|c| c.text.clone()).collect();
    assert!(
        all_text.contains("非常长的句子") || all_text.contains("超过了六十四个字符"),
        "long sentence content should be preserved"
    );
}

#[test]
fn test_agentic_registered() {
    let strategies = list_strategies();
    let ids: Vec<&str> = strategies.iter().map(|s| s.id.as_str()).collect();
    assert!(ids.contains(&"agentic"), "agentic not in list: {:?}", ids);
    let id = SplitStrategyId::from_str("agentic").unwrap();
    assert_eq!(id.as_str(), "agentic");
}

#[test]
fn test_agentic_strategy_info() {
    let s = AgenticSplitStrategy;
    let info = s.info();
    assert_eq!(info.id, "agentic");
    assert_eq!(info.name, "智能切分");
    assert!(info.description.contains("LLM"), "description 应提示 LLM 开销");
    let keys: Vec<&str> = info.config_schema.iter().map(|p| p.key.as_str()).collect();
    assert_eq!(keys, vec!["model", "prompt_template", "max_chunk_size", "window_size"]);
    assert!(matches!(info.config_schema[2].default, ParamDefault::Number(512)));
    assert!(matches!(info.config_schema[3].default, ParamDefault::Number(20)));
}

#[test]
fn test_parse_split_points_pure_json() {
    assert_eq!(parse_split_points("[3, 7, 12]", 20), vec![3, 7, 12]);
}

#[test]
fn test_parse_split_points_with_prose() {
    assert_eq!(parse_split_points("好的，切分点是 [3, 7]。", 20), vec![3, 7]);
}

#[test]
fn test_parse_split_points_code_fence() {
    assert_eq!(parse_split_points("```json\n[2,5]\n```", 20), vec![2, 5]);
}

#[test]
fn test_parse_split_points_think_block() {
    assert_eq!(parse_split_points("<think>让我想想，应该有 100 个切分点</think>[4]", 20), vec![4]);
}

#[test]
fn test_parse_split_points_no_brackets_fallback() {
    assert_eq!(parse_split_points("3 7 12", 20), vec![3, 7, 12]);
}

#[test]
fn test_parse_split_points_out_of_range() {
    assert_eq!(parse_split_points("[0, 20]", 20), Vec::<usize>::new());
}

#[test]
fn test_parse_split_points_sort_dedup() {
    assert_eq!(parse_split_points("[7, 3, 7, 12]", 20), vec![3, 7, 12]);
}

#[test]
fn test_parse_split_points_no_cuts() {
    assert_eq!(parse_split_points("没有切分点", 20), Vec::<usize>::new());
    assert_eq!(parse_split_points("[]", 20), Vec::<usize>::new());
}

#[test]
fn test_agentic_params_string_or_vec() {
    let p = AgenticParams::from_fields(Some(TextOrList::List(vec!["qwen3:1.7b".to_string()])), None, Some(256), None);
    assert_eq!(p.model.as_deref(), Some("qwen3:1.7b"));
    assert_eq!(p.max_chunk_size, 256);
    assert_eq!(p.window_size, 20);

    let p2 = AgenticParams::from_fields(Some(TextOrList::Text("llama3:8b".to_string())), None, None, None);
    assert_eq!(p2.model.as_deref(), Some("llama3:8b"));
}

#[test]
fn test_group_by_cuts_and_enforce() {
    let text = "第一句内容啊啊。第二句内容啊啊。第三句内容啊啊。第四句内容啊啊。第五句内容啊啊。第六句内容啊啊。第七句内容啊啊。第八句内容啊啊。第九句内容啊啊。第十句内容啊啊。";
    let sentences = split_sentences(text);
    assert_eq!(sentences.len(), 10);

    let segments = group_by_cuts(&sentences, &[2, 5]);
    assert_eq!(segments.len(), 3);
    assert!(segments[0].0.starts_with("第一句"));
    assert!(segments[0].0.ends_with("第三句内容啊啊。"));
    assert!(segments[1].0.starts_with("第四句"));
    assert!(segments[2].0.starts_with("第七句"));
    assert_eq!(segments[0].1, 0);
    assert!(segments[1].1 > segments[0].2 - 10, "段偏移应递增");

    let chunks = enforce_max_size(segments, 25);
    for c in &chunks {
        assert!(c.text.chars().count() <= 25, "chunk {} 超过硬约束: {} 字符", c.index, c.text.chars().count());
    }
    assert!(chunks.len() >= 4, "10 句 max=25 应至少切出 4 块, 实际 {}", chunks.len());
}

#[test]
fn test_merge_tiny_merges_small() {
    let mk = |text: &str, start: usize, end: usize, index: usize| ChunkResult {
        text: text.to_string(),
        start,
        end,
        index,
        metadata: ChunkMetadata::Empty,
    };
    let chunks = vec![mk("小段。", 0, 5, 0), mk("正常段内容啊啊啊啊。", 5, 15, 1)];
    let merged = merge_tiny(chunks, 512);
    assert_eq!(merged.len(), 1);
    assert_eq!(merged[0].index, 0);
    assert!(merged[0].text.contains("小段。"));
    assert!(merged[0].text.contains("正常段"));
}

fn params_with_max(max_chunk_size: usize) -> AgenticParams {
    AgenticParams { model: None, prompt_template: None, max_chunk_size, window_size: default_window_size() }
}

#[test]
fn test_agentic_short_text_shortcut() {
    let s = AgenticSplitStrategy;
    let text = "短文本。只有两句。";
    match s.start(text, &params_with_max(512)) {
        AgenticStart::Done(chunks) => {
            assert_eq!(chunks.len(), 1);
            assert_eq!(chunks[0].text, text);
        },
        AgenticStart::Pending(_) => panic!("a short text needs no model"),
    }
}

#[test]
fn test_agentic_fallback_to_semantic() {
    let s = AgenticSplitStrategy;
    assert!(matches!(s.start(LONG_TEXT, &params_with_max(64)), AgenticStart::Pending(_)));
    let chunks = agentic_without_model(LONG_TEXT, 64, true).unwrap();
    let expected = semantic_split(LONG_TEXT, 64, 0, 3);
    assert_eq!(chunks.len(), expected.len(), "降级结果应与语义切分一致");
    for (a, b) in chunks.iter().zip(expected.iter()) {
        assert_eq!(a.text, b.text);
    }
}

#[test]
fn test_agentic_preview_errors_without_ollama() {
    let s = AgenticSplitStrategy;
    assert!(matches!(s.start(LONG_TEXT, &params_with_max(64)), AgenticStart::Pending(_)));
    let result = agentic_without_model(LONG_TEXT, 64, false);
    assert!(
        matches!(result, Err(AppError::OllamaNotRunning)),
        "预览路径应报 OllamaNotRunning, 实际: {:?}",
        result.map(|v| v.len())
    );
}

#[test]
fn agentic_model_error_is_returned_without_fallback() {
    let result = agentic_fallback(LONG_TEXT, 64, false, AppError::Http("连接被拒绝".to_string()));
    assert!(matches!(result, Err(AppError::Http(ref m)) if m == "连接被拒绝"));
}

#[test]
fn sentence_after_blank_line_is_flagged() {
    let s = split_sentences("第一段内容。包含几个句子。\n\n第二段内容。完全不同的话题。");
    assert_eq!(s.len(), 4);
    let text: String = s[2].text.iter().collect();
    assert_eq!(text, "第二段内容。");
    assert_eq!(s[2].start, 15);
    assert!(s[2].after_paragraph_break);
    assert!(!s[1].after_paragraph_break);
    assert!(!s[3].after_paragraph_break);
}

#[test]
fn overlap_chunk_starts_at_its_first_carried_sentence() {
    let text = "这是第一句话。这是第二句话。这是第三句话。这是第四句话。这是第五句话。这是第六句话。这是第七句话。这是第八句话。这是第九句话。这是第十句话。";
    let chunks = semantic_split(text, 40, 20, 3);
    assert_eq!(chunks.len(), 4);
    assert_eq!(chunks[1].text, "这是第二句话。这是第三句话。这是第四句话。 这是第五句话。 这是第六句话。");
    assert_eq!(chunks[1].start, 7);
    assert_eq!(chunks[3].text, "这是第八句话。这是第九句话。这是第十句话。");
    assert_eq!(chunks[3].start, 49);
    assert_eq!(chunks[3].end, 70);
}

#[test]
fn cuts_give_one_segment_each_and_one_for_the_rest() {
    let text = "第一句内容啊啊。第二句内容啊啊。第三句内容啊啊。第四句内容啊啊。第五句内容啊啊。";
    let sentences = split_sentences(text);
    let segments = group_by_cuts(&sentences, &[1, 4]);
    assert_eq!(segments.len(), 2);
    assert_eq!(segments[0].0, "第一句内容啊啊。第二句内容啊啊。");
    assert_eq!((segments[0].1, segments[0].2), (0, 16));
    assert_eq!(segments[1].0, "第三句内容啊啊。第四句内容啊啊。第五句内容啊啊。");
    assert_eq!((segments[1].1, segments[1].2), (16, 40));
    let with_rest = group_by_cuts(&sentences, &[0]);
    assert_eq!(with_rest.len(), 2);
    assert_eq!(with_rest[1].0, "第二句内容啊啊。第三句内容啊啊。第四句内容啊啊。第五句内容啊啊。");
}

#[test]
fn blank_text_gives_no_chunk_and_no_chunk_is_blank() {
    assert!(semantic_split("  \n\n \t ", 64, 10, 3).is_empty());
    assert!(semantic_split("", 64, 10, 3).is_empty());
    let chunks = semantic_split(LONG_TEXT, 30, 10, 3);
    assert!(!chunks.is_empty());
    for c in &chunks {
        assert!(!c.text.trim().is_empty());
    }
}

#[test]
fn window_requests_carry_the_split_options() {
    let s = AgenticSplitStrategy;
    let mut session = match s.start(LONG_TEXT, &params_with_max(64)) {
        AgenticStart::Pending(session) => session,
        AgenticStart::Done(_) => panic!("a long text needs the model"),
    };
    let q = session.next_request("qwen3:1.7b").expect("a first window");
    assert_eq!(q.model, "qwen3:1.7b");
    assert!(!q.stream && !q.think);
    assert_eq!((q.temperature_milli, q.num_predict), (100, 256));
    assert!(q.prompt.contains("人工智能是计算机科学的一个分支。"));
}

#[test]
fn grouped_segments_hold_all_sentence_texts_once() {
    let sentences = split_sentences(LONG_TEXT);
    let all: String = sentences.iter().map(|s| s.text.iter().collect::<String>()).collect();
    let segments = group_by_cuts(&sentences, &[1, 3]);
    let joined: String = segments.iter().map(|s| s.0.as_str()).collect();
    assert_eq!(joined, all);
}
