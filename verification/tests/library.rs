use simplethinktank::chunking::chunk::ChunkMetadata;
use simplethinktank::chunking::recursive::{hard_split, recursive_split};
use simplethinktank::chunking::strategies::{
    default_separators, get_strategy, list_strategies, FixedSizeParams, FixedSizeStrategy, RecursiveCharParams, RecursiveCharStrategy, SplitStrategyId,
    StructuralParams, StructuralStrategy,
};
use simplethinktank::config::{AppPaths, AppSettings};
use simplethinktank::documents::{check_file_size, content_hash, is_supported_extension, to_hex_lower, MAX_FILE_SIZE};
use simplethinktank::error::AppError;
use simplethinktank::models::{validate_kb_name, DocumentStatus, ImportProgress};
use simplethinktank::parsing::{decode_text, detect_format, docx_plain_text, DocChild, FileFormat, ParaPiece, RunPiece};
use simplethinktank::rag::{assemble_context, batch_bounds, build_system_prompt, build_user_prompt, metadata_to_json, HistoryMessage};
use simplethinktank::stats::{database_size, find_vector_count};

#[test]
fn strategy_names_read_back() {
    for id in [
        SplitStrategyId::FixedSize,
        SplitStrategyId::RecursiveChar,
        SplitStrategyId::StructureBased,
        SplitStrategyId::Semantic,
        SplitStrategyId::Agentic,
    ] {
        assert_eq!(SplitStrategyId::from_str(id.as_str()).unwrap(), id);
    }
    match SplitStrategyId::from_str("magic") {
        Err(AppError::Other(m)) => assert_eq!(m, "未知的切分策略: magic"),
        other => panic!("unexpected {:?}", other),
    }
}

#[test]
fn fixed_size_windows_slide_by_chunk_minus_overlap() {
    let text: String = std::iter::repeat('a').take(150).collect();
    let chunks = FixedSizeStrategy.split(&text, &FixedSizeParams { chunk_size: 64, overlap: 14 });
    let bounds: Vec<(usize, usize)> = chunks.iter().map(|c| (c.start, c.end)).collect();
    assert_eq!(bounds, vec![(0, 64), (50, 114), (100, 150)]);
    for (i, c) in chunks.iter().enumerate() {
        assert_eq!(c.index, i);
        assert!(c.text.chars().count() <= 64);
    }
    assert!(FixedSizeStrategy.split("", &FixedSizeParams { chunk_size: 64, overlap: 0 }).is_empty());
}

#[test]
fn default_fixed_parameters_give_two_windows_over_600_characters() {
    let text: String = std::iter::repeat('a').take(600).collect();
    let p = FixedSizeParams::default();
    assert_eq!((p.chunk_size, p.overlap), (512, 50));
    let chunks = FixedSizeStrategy.split(&text, &p);
    let bounds: Vec<(usize, usize)> = chunks.iter().map(|c| (c.start, c.end)).collect();
    assert_eq!(bounds, vec![(0, 512), (462, 600)]);
}

#[test]
fn recursive_pieces_give_back_the_text() {
    let text = "第一段。\n\n第二段很长很长很长。\n第三行。 最后 一句";
    let seps = default_separators();
    let pieces = recursive_split(text, &seps, 5);
    assert_eq!(pieces.concat(), text);
    assert!(pieces.iter().all(|p| p.chars().count() <= 5));
    assert_eq!(hard_split("abcdefg", 3), vec!["abc", "def", "g"]);
    assert!(hard_split("", 3).is_empty());
}

#[test]
fn recursive_strategy_keeps_chunks_in_size() {
    let para: String = std::iter::repeat("句子内容. ").take(40).collect();
    let text = format!("{}\n\n{}", para, para);
    let chunks = RecursiveCharStrategy.split(
        &text,
        &RecursiveCharParams { chunk_size: 64, overlap: 10, separators: Vec::new() },
    );
    assert!(chunks.len() > 2);
    for (i, c) in chunks.iter().enumerate() {
        assert_eq!(c.index, i);
        assert!(c.text.chars().count() <= 74);
    }
}

#[test]
fn structural_strategy_follows_headings() {
    let text = "# 标题一\n内容一。\n# 标题二\n内容二。\n";
    let chunks = StructuralStrategy.split(text, &StructuralParams { chunk_size: 64, overlap: 0 });
    assert_eq!(chunks.len(), 2);
    assert_eq!(chunks[0].text, "# 标题一\n内容一。");
    assert_eq!(chunks[0].metadata, ChunkMetadata::Title(Some("# 标题一".to_string())));
    assert_eq!((chunks[1].start, chunks[1].end), (11, 22));
}

#[test]
fn structural_strategy_falls_back_to_paragraphs() {
    let text = "第一段。\n\n第二段。";
    let chunks = StructuralStrategy.split(text, &StructuralParams { chunk_size: 64, overlap: 0 });
    assert_eq!(chunks.len(), 1);
    assert_eq!(chunks[0].text, "第一段。\n\n第二段。");
    assert_eq!((chunks[0].start, chunks[0].end), (0, 10));
}

#[test]
fn app_paths_sit_below_the_root() {
    let p = AppPaths { root: vec!["/home/u/Documents/Zhishiku".to_string()] };
    assert_eq!(p.documents_dir("kb1"), vec!["/home/u/Documents/Zhishiku", "knowledge_bases", "kb1", "documents"]);
    assert_eq!(p.database_path(), vec!["/home/u/Documents/Zhishiku", "zhishiku.db"]);
    assert_eq!(p.models_dir().last().unwrap(), "models");
    assert_eq!(p.logs_dir().last().unwrap(), "logs");
    assert_eq!(p.vector_index_dir("k").last().unwrap(), "vector_index");
    assert_eq!(p.knowledge_base_config("k").last().unwrap(), "config.json");
}

#[test]
fn settings_survive_being_stored() {
    let mut s = AppSettings::default();
    s.https_proxy = "http://127.0.0.1:7890".to_string();
    s.use_custom_models_dir = true;
    s.download_max_retries = 7;
    s.download_request_timeout_secs = 1234567;
    s.chat_model = "qwen3:8b".to_string();
    let back = AppSettings::from_pairs(&s.to_pairs());
    assert_eq!(back.https_proxy, s.https_proxy);
    assert!(back.use_custom_models_dir);
    assert_eq!(back.download_max_retries, 7);
    assert_eq!(back.download_request_timeout_secs, 1234567);
    assert_eq!(back.chat_model, "qwen3:8b");
    assert_eq!(back.query_options, s.query_options);
    assert!(back.proxy_enabled());
    assert!(!back.registry_enabled());
}

#[test]
fn unreadable_stored_numbers_fall_back() {
    let pairs = vec![
        ("download_max_retries".to_string(), "many".to_string()),
        ("download_connect_timeout_secs".to_string(), "+45".to_string()),
        ("unknown".to_string(), "x".to_string()),
    ];
    let s = AppSettings::from_pairs(&pairs);
    assert_eq!(s.download_max_retries, 3);
    assert_eq!(s.download_connect_timeout_secs, 45);
    assert_eq!(s.download_request_timeout_secs, 600);
    assert_eq!(s.effective_chat_model(), "qwen3:1.7b");
}

#[test]
fn file_size_limit_and_extensions() {
    assert!(check_file_size(MAX_FILE_SIZE).is_ok());
    assert!(matches!(
        check_file_size(MAX_FILE_SIZE + 1),
        Err(AppError::FileTooLarge { size, limit }) if size == MAX_FILE_SIZE + 1 && limit == 104857600
    ));
    assert!(is_supported_extension("PDF"));
    assert!(is_supported_extension("Markdown"));
    assert!(!is_supported_extension("exe"));
}

#[test]
fn content_hash_is_sha256_in_hex() {
    assert_eq!(content_hash(b"abc"), "ba7816bf8f01cfea414140de5dae2223b00361a396177a9cb410ff61f20015ad");
    assert_eq!(content_hash(b"").len(), 64);
    assert_eq!(to_hex_lower(&[0x00, 0x0f, 0xa5]), "000fa5");
}

#[test]
fn formats_are_told_apart() {
    assert_eq!(detect_format("PDF", "\"a.pdf\"", b"%PDF", None).unwrap(), FileFormat::Pdf);
    assert!(matches!(detect_format("pdf", "\"a.pdf\"", b"PK", None), Err(AppError::Parsing(m)) if m == "文件 \"a.pdf\" 的实际格式与扩展名不符"));
    assert_eq!(detect_format("docx", "x", b"PK\x03\x04", None).unwrap(), FileFormat::Docx);
    assert_eq!(detect_format("markdown", "x", b"", None).unwrap(), FileFormat::Md);
    assert_eq!(detect_format("bin", "x", b"%PDF", None).unwrap(), FileFormat::Pdf);
    assert_eq!(detect_format("", "x", b"abc", Some(true)).unwrap(), FileFormat::Txt);
    assert!(matches!(detect_format("BIN", "x", b"\xff", Some(false)), Err(AppError::UnsupportedFormat(e)) if e == "bin"));
    assert_eq!(FileFormat::Md.as_str(), "md");
}

#[test]
fn text_is_decoded_as_utf8_then_gb18030() {
    assert_eq!(decode_text("中文".as_bytes()).unwrap(), "中文");
    assert_eq!(decode_text(&[0xd6, 0xd0, 0xce, 0xc4]).unwrap(), "中文");
}

#[test]
fn word_text_keeps_runs_and_links() {
    let doc = vec![
        DocChild::Paragraph(vec![
            ParaPiece::Run(vec![RunPiece::Text("你好".to_string()), RunPiece::Other]),
            ParaPiece::Hyperlink(vec![Some(vec![RunPiece::Text("链接".to_string())]), None]),
            ParaPiece::Other,
        ]),
        DocChild::Other,
        DocChild::Paragraph(vec![]),
    ];
    assert_eq!(docx_plain_text(&doc), "你好链接\n\n");
}

#[test]
fn prompts_are_assembled() {
    let ctx = assemble_context(&vec!["甲".to_string(), "乙".to_string()]);
    assert_eq!(ctx, "[片段 1]\n甲\n\n---\n\n[片段 2]\n乙");
    assert!(build_system_prompt(&ctx).ends_with("知识片段:\n[片段 1]\n甲\n\n---\n\n[片段 2]\n乙"));
    let h = vec![
        HistoryMessage { role: "user".to_string(), content: "问".to_string() },
        HistoryMessage { role: "assistant".to_string(), content: "答".to_string() },
    ];
    assert_eq!(build_user_prompt("新问题", &h, true), "用户: 问\n助手: 答\n\n当前问题: 新问题");
    assert_eq!(build_user_prompt("新问题", &h, false), "新问题");
    let many: Vec<HistoryMessage> =
        (0..8).map(|i| HistoryMessage { role: "user".to_string(), content: i.to_string() }).collect();
    assert_eq!(build_user_prompt("q", &many, true).matches("用户").count(), 6);
}

#[test]
fn user_prompt_keeps_the_latest_six_messages() {
    let seven: Vec<HistoryMessage> =
        (1..=7).map(|k| HistoryMessage { role: "user".to_string(), content: k.to_string() }).collect();
    assert_eq!(
        build_user_prompt("q", &seven, true),
        "用户: 2\n用户: 3\n用户: 4\n用户: 5\n用户: 6\n用户: 7\n\n当前问题: q"
    );
}

#[test]
fn metadata_is_stored_as_json() {
    assert_eq!(metadata_to_json(&ChunkMetadata::Empty), "{}");
    assert_eq!(metadata_to_json(&ChunkMetadata::Agentic), "{\"strategy\":\"agentic\"}");
    assert_eq!(metadata_to_json(&ChunkMetadata::Title(None)), "{\"title\":null}");
    assert_eq!(metadata_to_json(&ChunkMetadata::Title(Some("# 章 \"一\"".to_string()))), "{\"title\":\"# 章 \\\"一\\\"\"}");
}

#[test]
fn embedding_batches_hold_eight() {
    assert_eq!(batch_bounds(17, 8), vec![(0, 8), (8, 16), (16, 17)]);
    assert!(batch_bounds(0, 8).is_empty());
}

#[test]
fn import_progress_counts_outcomes() {
    let mut p = ImportProgress::start("t1", 2);
    assert_eq!(p.status, "running");
    p.begin_file("a.txt");
    p.record(true);
    p.record(false);
    assert_eq!((p.completed, p.failed), (1, 1));
    p.finish(false);
    assert_eq!(p.status, "completed");
    assert!(p.current_file.is_none());
    assert_eq!(DocumentStatus::Vectorizing.as_str(), "vectorizing");
}

#[test]
fn knowledge_base_names_are_trimmed() {
    assert_eq!(validate_kb_name("  新名字 ").unwrap(), "新名字");
    assert!(matches!(validate_kb_name("   "), Err(AppError::Other(m)) if m == "知识库名称不能为空"));
}

#[test]
fn storage_figures() {
    assert_eq!(database_size(1, 2, 3), 6);
    let rows = vec![("a".to_string(), 5i64), ("b".to_string(), 7i64)];
    assert_eq!(find_vector_count(&rows, "b"), 7);
    assert_eq!(find_vector_count(&rows, "c"), 0);
}

#[test]
fn error_messages() {
    assert_eq!(AppError::OllamaNotRunning.message(), "Ollama 服务未运行");
    assert_eq!(
        AppError::FileTooLarge { size: 5, limit: 4 }.message(),
        "文件过大: 5 bytes, 上限 4 bytes"
    );
}

#[test]
fn strategies_are_found_by_identifier() {
    let ids = [
        SplitStrategyId::FixedSize,
        SplitStrategyId::RecursiveChar,
        SplitStrategyId::StructureBased,
        SplitStrategyId::Semantic,
        SplitStrategyId::Agentic,
    ];
    let infos = list_strategies();
    for (k, id) in ids.iter().enumerate() {
        let s = get_strategy(*id);
        assert_eq!(s.id(), *id);
        assert_eq!(s.info().id, id.as_str());
        assert_eq!(infos[k].id, s.info().id);
    }
}

#[test]
fn every_strategy_numbers_its_chunks_by_position() {
    let text = "# 标题一\n第一段内容。包含几个句子。\n\n## 标题二\n第二段内容。完全不同的话题。然而，话题转换了。\n\n".repeat(6);
    let all = vec![
        FixedSizeStrategy.split(&text, &FixedSizeParams { chunk_size: 64, overlap: 10 }),
        RecursiveCharStrategy.split(
            &text,
            &RecursiveCharParams { chunk_size: 64, overlap: 10, separators: default_separators() },
        ),
        StructuralStrategy.split(&text, &StructuralParams { chunk_size: 64, overlap: 10 }),
        simplethinktank::chunking::semantic::semantic_split(&text, 64, 10, 3),
    ];
    for chunks in all {
        assert!(chunks.len() > 1);
        for (i, c) in chunks.iter().enumerate() {
            assert_eq!(c.index, i);
        }
    }
}

#[test]
fn semantic_chunks_end_at_sentence_ends() {
    let text = "这是第一句话内容。这是第二句话内容！这是第三句话内容？This is the fourth one. 第五句在这里。第六句在这里。第七句没有句号";
    for overlap in [0usize, 20] {
        let chunks = simplethinktank::chunking::semantic::semantic_split(text, 40, overlap, 3);
        assert!(chunks.len() > 1);
        for c in &chunks[..chunks.len() - 1] {
            let last = c.text.chars().last().unwrap();
            assert!(['。', '！', '？', '.', '!', '?'].contains(&last), "chunk ends mid-sentence: {}", c.text);
        }
        assert!(chunks.last().unwrap().text.ends_with("第七句没有句号"));
    }
}

#[test]
fn semantic_overlap_is_whole_sentences_of_the_chunk_before() {
    let text = "这是第一句话。这是第二句话。这是第三句话。这是第四句话。这是第五句话。这是第六句话。这是第七句话。这是第八句话。";
    let plain = simplethinktank::chunking::semantic::semantic_split(text, 40, 0, 3);
    let with = simplethinktank::chunking::semantic::semantic_split(text, 40, 20, 3);
    assert_eq!(plain.len(), with.len());
    for i in 1..with.len() {
        let own = &plain[i].text;
        assert!(with[i].text.ends_with(own.as_str()));
        let front = &with[i].text[..with[i].text.len() - own.len()];
        let before: Vec<String> = simplethinktank::chunking::sentences::split_sentences(&plain[i - 1].text)
            .iter()
            .map(|s| s.text.iter().collect())
            .collect();
        let found = (0..=before.len()).any(|m| before[before.len() - m..].concat() == front);
        assert!(found, "overlap {:?} is not whole sentences of {:?}", front, before);
    }
}

#[test]
fn recursive_and_markdown_chunks_stay_within_size_and_overlap() {
    let text = "# 第一章\n".to_string()
        + &"很长的一段没有换行的文本内容，".repeat(20)
        + "\n\n## 第二节\n短段落。\n\n"
        + &"another fairly long sentence without breaks ".repeat(10);
    let rc = RecursiveCharStrategy.split(
        &text,
        &RecursiveCharParams { chunk_size: 64, overlap: 10, separators: default_separators() },
    );
    assert!(rc.len() > 1);
    for c in &rc {
        assert!(c.text.chars().count() <= 64 + 10);
    }
    let md = StructuralStrategy.split(&text, &StructuralParams { chunk_size: 64, overlap: 10 });
    assert!(md.len() > 1);
    for c in &md {
        assert!(c.text.chars().count() <= 64 + 10);
    }
}

#[test]
fn paragraph_chunks_stay_within_size_when_paragraphs_fit() {
    let text = ["第一段比较短。", "第二段稍微长一点点，但也不会太长。", "第三段。", "第四段的内容在这里出现，并且继续。"]
        .iter()
        .cycle()
        .take(24)
        .cloned()
        .collect::<Vec<_>>()
        .join("\n\n");
    let chunks = StructuralStrategy.split(&text, &StructuralParams { chunk_size: 64, overlap: 10 });
    assert!(chunks.len() > 1);
    for c in &chunks {
        assert!(c.text.chars().count() <= 64 + 10, "{}", c.text);
    }
}

#[test]
fn markdown_pieces_of_a_long_section_span_their_own_characters() {
    let text: Vec<char> = "# ab".chars().collect();
    let chunks = simplethinktank::chunking::structural::split_markdown(&text, 2, 0);
    assert_eq!(chunks.len(), 2);
    let texts: Vec<String> = chunks.iter().map(|c| c.text.iter().collect()).collect();
    assert_eq!(texts, vec!["# ".to_string(), "ab".to_string()]);
    assert_eq!((chunks[0].start, chunks[0].end), (0, 2));
    assert_eq!((chunks[1].start, chunks[1].end), (2, 4));
    assert_eq!(chunks[1].index, 1);
    assert!(matches!(&chunks[1].metadata, ChunkMetadata::Title(Some(t)) if t == "# ab"));
}

#[test]
fn metadata_titles_are_escaped_as_json_strings() {
    let t = "a\u{1}b\n\t\\".to_string();
    assert_eq!(metadata_to_json(&ChunkMetadata::Title(Some(t))), "{\"title\":\"a\\u0001b\\n\\t\\\\\"}");
}

#[test]
fn unreadable_word_documents_give_a_parsing_error() {
    match simplethinktank::parsing::docx_parse_failure("invalid Zip archive") {
        AppError::Parsing(m) => assert_eq!(m, "DOCX 解析失败: invalid Zip archive"),
        other => panic!("unexpected {:?}", other),
    }
}
