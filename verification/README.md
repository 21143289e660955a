# Oxipress

A Markdown blog that is rendered to static HTML at build time, with one
serverless function for full-text search.

The logic lives in the library under `src/`, written in Verus; each public
function carries a contract that Verus proves:

| Module | What it holds |
| ------ | ------------- |
| `text` | Unicode whitespace, trimming, lines, words and substring search over characters |
| `content` | the frontmatter block, plain text of a Markdown body, reading time, XML escaping, dates and feed dates, posts |
| `site` | the order of the listing, tag pages, page URLs, the RSS feed, the sitemap, search index entries |
| `page` | the context of each page (home, post, tag) and its rendering from the templates |
| `search` | scoring an index entry against query terms, ranking, the search itself, the query of a request URL |

Where the library relies on another crate, a small function states what it
relies on: comrak renders Markdown, minijinja renders the page templates,
chrono writes dates, the `url` crate
decodes query strings, and `str::to_lowercase` lowercases text.

`app/` is the program around the library: it reads `blog.toml`, the posts
and the templates, writes the pages that the library renders to `dist/`, and with `--search-api` serves
`/api/search` under Vercel's runtime. Parsing YAML, TOML and JSON with serde
happens there, on copies of the library's types.

`tests/` exercises the library on concrete inputs.
