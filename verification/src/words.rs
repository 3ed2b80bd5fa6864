//! The words of the session formats.

use vstd::prelude::*;

verus! {

/// A number by which the words of the session formats are told apart.
pub open spec fn code(s: Seq<char>) -> int {
    s.len() + 100 * (s[0] as int) + 100000 * (s[s.len() - 2] as int)
}

/// No two words of the session formats are the same.
pub proof fn lemma_words()
    ensures
        code("arguments"@) == 11609709,
        code("assistant"@) == 11009709,
        code("call_id"@) == 10509907,
        code("cli_version"@) == 11109911,
        code("content"@) == 11009907,
        code("cwd"@) == 11909903,
        code("external"@) == 9710108,
        code("function_call"@) == 10810213,
        code("function_call_output"@) == 11710220,
        code("id"@) == 10510502,
        code("image"@) == 10310505,
        code("input"@) == 11710505,
        code("input_image"@) == 10310511,
        code("input_text"@) == 12010510,
        code("isError"@) == 11110507,
        code("isSessionTitleManuallySet"@) == 10110525,
        code("isSidechain"@) == 10510511,
        code("is_error"@) == 11110508,
        code("message"@) == 10310907,
        code("model"@) == 10110905,
        code("model_provider"@) == 10110914,
        code("name"@) == 10911004,
        code("ordinal"@) == 9711107,
        code("originator"@) == 11111110,
        code("output"@) == 11711106,
        code("output_text"@) == 12011111,
        code("owner"@) == 10111105,
        code("pad"@) == 9711203,
        code("parentId"@) == 7311208,
        code("parentUuid"@) == 10511210,
        code("payload"@) == 9711207,
        code("provider"@) == 10111208,
        code("reasoning"@) == 11011409,
        code("response_item"@) == 10111413,
        code("role"@) == 10811404,
        code("session"@) == 11111507,
        code("sessionId"@) == 7311509,
        code("session_id"@) == 10511510,
        code("session_meta"@) == 11611512,
        code("session_start"@) == 11411513,
        code("signature"@) == 11411509,
        code("signatureProvider"@) == 10111517,
        code("source"@) == 9911506,
        code("summary"@) == 11411507,
        code("summary_text"@) == 12011512,
        code("text"@) == 12011604,
        code("thinking"@) == 11011608,
        code("timestamp"@) == 10911609,
        code("title"@) == 10811605,
        code("titleSource"@) == 9911611,
        code("toolCall"@) == 10811608,
        code("toolCallId"@) == 7311610,
        code("toolName"@) == 10911608,
        code("toolResult"@) == 10811610,
        code("tool_result"@) == 10811611,
        code("tool_use"@) == 11511608,
        code("tool_use_id"@) == 10511611,
        code("turn_context"@) == 12011612,
        code("model_change"@) == 10310912,
        code("type"@) == 11211604,
        code("updatedAt"@) == 6511709,
        code("usage"@) == 10311705,
        code("user"@) == 10111704,
        code("userType"@) == 11211708,
        code("uuid"@) == 10511704,
        code("version"@) == 11111807,
        code("system"@) == 10111506,
        code("compacted"@) == 10109909,
        code("compaction"@) == 11109910,
        code("compaction_state"@) == 11609916,
{
    reveal_strlit("arguments");
    reveal_strlit("assistant");
    reveal_strlit("call_id");
    reveal_strlit("cli_version");
    reveal_strlit("content");
    reveal_strlit("cwd");
    reveal_strlit("external");
    reveal_strlit("function_call");
    reveal_strlit("function_call_output");
    reveal_strlit("id");
    reveal_strlit("image");
    reveal_strlit("input");
    reveal_strlit("input_image");
    reveal_strlit("input_text");
    reveal_strlit("isError");
    reveal_strlit("isSessionTitleManuallySet");
    reveal_strlit("isSidechain");
    reveal_strlit("is_error");
    reveal_strlit("message");
    reveal_strlit("model");
    reveal_strlit("model_provider");
    reveal_strlit("name");
    reveal_strlit("ordinal");
    reveal_strlit("originator");
    reveal_strlit("output");
    reveal_strlit("output_text");
    reveal_strlit("owner");
    reveal_strlit("pad");
    reveal_strlit("parentId");
    reveal_strlit("parentUuid");
    reveal_strlit("payload");
    reveal_strlit("provider");
    reveal_strlit("reasoning");
    reveal_strlit("response_item");
    reveal_strlit("role");
    reveal_strlit("session");
    reveal_strlit("sessionId");
    reveal_strlit("session_id");
    reveal_strlit("session_meta");
    reveal_strlit("session_start");
    reveal_strlit("signature");
    reveal_strlit("signatureProvider");
    reveal_strlit("source");
    reveal_strlit("summary");
    reveal_strlit("summary_text");
    reveal_strlit("text");
    reveal_strlit("thinking");
    reveal_strlit("timestamp");
    reveal_strlit("title");
    reveal_strlit("titleSource");
    reveal_strlit("toolCall");
    reveal_strlit("toolCallId");
    reveal_strlit("toolName");
    reveal_strlit("toolResult");
    reveal_strlit("tool_result");
    reveal_strlit("tool_use");
    reveal_strlit("tool_use_id");
    reveal_strlit("turn_context");
    reveal_strlit("model_change");
    reveal_strlit("type");
    reveal_strlit("updatedAt");
    reveal_strlit("usage");
    reveal_strlit("user");
    reveal_strlit("userType");
    reveal_strlit("uuid");
    reveal_strlit("version");
    reveal_strlit("system");
    reveal_strlit("compacted");
    reveal_strlit("compaction");
    reveal_strlit("compaction_state");
}

} // verus!
