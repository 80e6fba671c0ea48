# tender_agents

The verified core of a tender-document review system. Review agents share a
session knowledge graph of clauses, risks, laws and review attempts, and
call rule-based tools over the clauses of a tender document.

Layout:

- `src/` — the library, verified with Verus.
  - `session_graph.rs`, `risk_index.rs`, `graph_types.rs`: the session
    graph, its transactional writes (review attempts, provisional findings,
    the final audit) and the chunk versions that tell an agent when a
    clause's context changed.
  - `testing.rs`: reading trace text, and checks over agent traces and
    findings.
  - `tools/`: the document tools (cross references, imported products,
    version comparison, template comparison, boilerplate detection,
    obligations, contradictions, the working-day calendar and timeline
    arithmetic, the knowledge-search rules, the search-stream reading and
    the law-cache expiry, the evaluation cases, metrics and case loop, the
    text rules of the scoring tools).
  - `strmap.rs`, `text.rs`, `chunk.rs`, `dup.rs`, `deep_eq.rs`: the
    string-keyed map, text functions, the document chunk, copying and deep
    equality.
- `tests/` — tests of the library.
- `app/` — ordinary Rust around it: JSON arguments and results of the
  tools, reading trace and findings files, and the scoring tools whose
  scores are floating point.
