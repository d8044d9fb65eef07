# quake_alert

地震情報・緊急地震速報・津波予報を受け取り、どれを Discord へ知らせるか、どう書くかを決めるライブラリと、それを動かすbotです。

判断と整形はすべて `src/` にあり、Verus で検証しています。`app/` は接続・送信・ファイルの読み書きと地図タイルの描画だけを行います。

## 構成

| モジュール | 内容 |
| --- | --- |
| `text`, `reading`, `json` | 文字列・浮動小数点数のビット・`serde_json` の値 |
| `model` | 受信する報の型 |
| `intensity` | 震度の表記と、通知するかどうかの判定 |
| `config` | 設定の検査 |
| `discord` | 投稿の内容 |
| `delivery` | 送信の結果から、試し直すか諦めるかを決める |
| `feed`, `cursors` | 受信した報の振り分け、待ち行列、切断中の取りこぼしの拾い直し |
| `tracker`, `notices` | 投稿済みの記録と、新規投稿・差し替え・省略の判断 |
| `geo`, `mapgen` | 観測点の座標と検索、地図に描くもの |
| `stations`, `audit` | 観測点一覧の生成と、地点名の照合 |

## 使い方

`config.toml` に送信先を書き、Webhook の URL は環境変数で渡します。観測点の一覧は `data/observation_stations.tsv` に置きます。

```toml
[webhooks.main]
webhook_url_env = "DISCORD_WEBHOOK_URL"
other_min_scale = 50
region_min_scales = { "関東" = 40 }
watched_points = [{ pref = "東京都", name = "東京都23区", label = "自宅" }]
```

震度スケール値: `10`=1, `20`=2, `30`=3, `40`=4, `45`=5弱, `50`=5強, `55`=6弱, `60`=6強, `70`=7。

- `--test`, `--test-prompt`, `--test-eew`, `--test-tsunami`: 過去の報から1件を選んで送る
- `update-stations [--input JSON] [--output TSV]`: 観測点の一覧を作り直す
- `audit-points <履歴JSON> [--stations TSV]`: 報に出てくる地点名を一覧と照合する
